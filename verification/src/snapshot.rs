use crate::dispatch::build_tree;
use crate::tree::{internal_levels, leaves_of, MerkleTree};
use vstd::prelude::*;

verus! {

/// A read-only projection of a built tree, for inspection and audit: the
/// size of every level, every level's digests (leaf level first, then the
/// internal levels bottom-to-top), and the data-to-digest pairs in leaf
/// insertion order. Duplicate data values yield duplicate pairs.
pub struct TreeSnapshot {
    pub level_sizes: Vec<usize>,
    pub tree_structure: Vec<Vec<String>>,
    pub data_to_hash_mapping: Vec<(String, String)>,
}

impl MerkleTree {
    /// Derives the snapshot of this tree; the tree is not changed.
    pub fn snapshot(&self) -> (s: TreeSnapshot)
        requires
            self.wf(),
        ensures
            s.tree_structure.deep_view() == seq![self.leaves_view()] + self.levels_view(),
            s.level_sizes@.len() == 1 + self.levels_view().len(),
            forall|k: int|
                0 <= k < s.level_sizes@.len() ==> (#[trigger] s.level_sizes@[k]) as nat == (
                seq![self.leaves_view()] + self.levels_view())[k].len(),
            s.data_to_hash_mapping.deep_view() == Seq::new(
                self.data_view().len(),
                |i: int| (self.data_view()[i], self.leaves_view()[i]),
            ),
    {
        let ghost all = seq![self.leaves_view()] + self.levels_view();
        let mut tree_structure: Vec<Vec<String>> = Vec::new();
        let leaves_copy = self.leaves.clone();
        proof {
            assert(leaves_copy@ =~= self.leaves@);
            assert(leaves_copy.deep_view() =~= self.leaves_view());
        }
        tree_structure.push(leaves_copy);
        proof {
            assert(tree_structure.deep_view() =~= all.take(1));
        }
        let mut li: usize = 0;
        while li < self.nodes.len()
            invariant
                li <= self.nodes.len(),
                all == seq![self.leaves_view()] + self.levels_view(),
                all.len() == self.nodes.len() + 1,
                tree_structure.deep_view() == all.take(li as int + 1),
            decreases self.nodes.len() - li,
        {
            let ghost ts_before = tree_structure.deep_view();
            let level_copy = self.nodes[li].clone();
            let ghost lv = level_copy.deep_view();
            proof {
                assert(level_copy@ =~= self.nodes@[li as int]@);
                assert(lv =~= self.levels_view()[li as int]);
                assert(all[li as int + 1] == self.levels_view()[li as int]);
            }
            tree_structure.push(level_copy);
            li += 1;
            proof {
                assert(tree_structure.deep_view() =~= ts_before.push(lv));
                assert(tree_structure.deep_view() =~= all.take(li as int + 1));
            }
        }
        proof {
            assert(all.take(all.len() as int) =~= all);
        }
        let mut level_sizes: Vec<usize> = Vec::new();
        level_sizes.push(self.leaves.len());
        let mut lj: usize = 0;
        while lj < self.nodes.len()
            invariant
                lj <= self.nodes.len(),
                all == seq![self.leaves_view()] + self.levels_view(),
                all.len() == self.nodes.len() + 1,
                level_sizes@.len() == lj + 1,
                forall|k: int|
                    0 <= k < level_sizes@.len() ==> (#[trigger] level_sizes@[k]) as nat
                        == all[k].len(),
            decreases self.nodes.len() - lj,
        {
            let len = self.nodes[lj].len();
            proof {
                assert(all[lj as int + 1] == self.levels_view()[lj as int]);
                assert(self.levels_view()[lj as int].len() == self.nodes@[lj as int]@.len());
            }
            level_sizes.push(len);
            lj += 1;
        }
        let mut mapping: Vec<(String, String)> = Vec::new();
        let ghost pairs = Seq::new(
            self.data_view().len(),
            |i: int| (self.data_view()[i], self.leaves_view()[i]),
        );
        proof {
            assert(self.data_view().len() == self.leaves_view().len());
        }
        let mut mi: usize = 0;
        while mi < self.data_values.len()
            invariant
                mi <= self.data_values.len(),
                self.data_values@.len() == self.leaves@.len(),
                pairs == Seq::new(
                    self.data_view().len(),
                    |i: int| (self.data_view()[i], self.leaves_view()[i]),
                ),
                pairs.len() == self.data_values@.len(),
                mapping.deep_view() == pairs.take(mi as int),
            decreases self.data_values.len() - mi,
        {
            let ghost m_before = mapping.deep_view();
            let pair = (self.data_values[mi].clone(), self.leaves[mi].clone());
            let ghost pv = (pair.0@, pair.1@);
            proof {
                assert(pv == pairs[mi as int]);
            }
            mapping.push(pair);
            mi += 1;
            proof {
                assert(mapping.deep_view() =~= m_before.push(pv));
                assert(mapping.deep_view() =~= pairs.take(mi as int));
            }
        }
        proof {
            assert(pairs.take(pairs.len() as int) =~= pairs);
        }
        TreeSnapshot { level_sizes, tree_structure, data_to_hash_mapping: mapping }
    }
}

/// Builds a fresh tree from the given data items and derives its snapshot
/// in one step.
pub fn snapshot_of(data: &Vec<String>) -> (s: TreeSnapshot)
    ensures
        ({
            let lv = leaves_of(data.deep_view());
            let all = seq![lv] + internal_levels(lv);
            &&& s.tree_structure.deep_view() == all
            &&& s.level_sizes@.len() == all.len()
            &&& forall|k: int|
                0 <= k < s.level_sizes@.len() ==> (#[trigger] s.level_sizes@[k]) as nat
                    == all[k].len()
            &&& s.data_to_hash_mapping.deep_view() == Seq::new(
                data.deep_view().len(),
                |i: int| (data.deep_view()[i], lv[i]),
            )
        }),
{
    let tree = build_tree(data);
    tree.snapshot()
}

} // verus!
