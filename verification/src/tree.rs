use crate::hash::{digest_of, hash_str};
use vstd::prelude::*;
use vstd::string::StringExecFns;

verus! {

/// An inclusion proof: the original leaf value (not its digest) and the
/// sibling digests met on the way from the leaf level up to the root.
/// A `true` side flag records that the sibling sits to the right of the
/// accumulated digest at that step.
pub struct MerkleProof {
    pub leaf_value: String,
    pub proof_path: Vec<(String, bool)>,
}

/// The parent digest of an ordered pair of digests: the digest of the two
/// hexadecimal strings concatenated as text.
pub open spec fn combine(left: Seq<char>, right: Seq<char>) -> Seq<char> {
    digest_of(left + right)
}

/// One derivation step: consecutive digests are paired into their parent;
/// an unpaired trailing digest is carried up unchanged.
pub open spec fn next_level(level: Seq<Seq<char>>) -> Seq<Seq<char>> {
    Seq::new(
        (level.len() + 1) / 2,
        |i: int|
            if 2 * i + 1 < level.len() {
                combine(level[2 * i], level[2 * i + 1])
            } else {
                level[2 * i]
            },
    )
}

/// All internal levels derived from a leaf level, bottom-up. Empty when
/// there are fewer than two leaves; otherwise the derivation ends with a
/// level of size one.
pub open spec fn internal_levels(leaves: Seq<Seq<char>>) -> Seq<Seq<Seq<char>>>
    decreases leaves.len(),
{
    if leaves.len() <= 1 {
        Seq::empty()
    } else {
        seq![next_level(leaves)] + internal_levels(next_level(leaves))
    }
}

/// The root commitment of a leaf level: absent for an empty tree; the single
/// leaf digest when no internal level exists; otherwise the first entry of
/// the last internal level.
pub open spec fn root_spec(leaves: Seq<Seq<char>>) -> Option<Seq<char>> {
    if leaves.len() == 0 {
        None
    } else if internal_levels(leaves).len() == 0 {
        Some(leaves[0])
    } else {
        Some(internal_levels(leaves).last()[0])
    }
}

/// The sibling path recorded while walking from position `i` of the lowest
/// level of `levels` up to the topmost level: at each level but the last,
/// the bitwise-adjacent position contributes an entry when it is in bounds
/// (a lone carried-up digest contributes none), and the position is halved.
pub open spec fn path_spec(levels: Seq<Seq<Seq<char>>>, i: int) -> Seq<(Seq<char>, bool)>
    decreases levels.len(),
{
    if levels.len() <= 1 {
        Seq::empty()
    } else {
        let level = levels[0];
        let sibling: int = if i % 2 == 0 {
            i + 1
        } else {
            i - 1
        };
        let rest = path_spec(levels.drop_first(), i / 2);
        if 0 <= sibling < level.len() {
            seq![(level[sibling], i % 2 == 0)] + rest
        } else {
            rest
        }
    }
}

/// Folding a proof path over a starting digest: each step concatenates the
/// accumulated digest with the sibling, on the side the flag records, and
/// digests the concatenation.
pub open spec fn fold_path(path: Seq<(Seq<char>, bool)>, digest: Seq<char>) -> Seq<char>
    decreases path.len(),
{
    if path.len() == 0 {
        digest
    } else {
        let step = if path[0].1 {
            combine(digest, path[0].0)
        } else {
            combine(path[0].0, digest)
        };
        fold_path(path.drop_first(), step)
    }
}

/// The leaf level committed to a data sequence: each item's digest, in order.
pub open spec fn leaves_of(data: Seq<Seq<char>>) -> Seq<Seq<char>> {
    data.map_values(|d: Seq<char>| digest_of(d))
}

/// Computes the parent level of one tree level: consecutive digests are
/// paired and digested; an unpaired trailing digest is carried up unchanged.
fn derive_next_level(level: &Vec<String>) -> (nl: Vec<String>)
    ensures
        nl.deep_view() == next_level(level.deep_view()),
{
    let ghost cur = level.deep_view();
    let mut nl: Vec<String> = Vec::new();
    let mut i: usize = 0;
    while i < level.len()
        invariant
            i % 2 == 0 || i == level.len(),
            i <= level.len(),
            level.deep_view() == cur,
            (i + 1) / 2 <= next_level(cur).len(),
            nl.deep_view() == next_level(cur).take((i + 1) as int / 2),
        decreases level.len() - i,
    {
        let ghost nl_before = nl.deep_view();
        if i + 1 < level.len() {
            let combined = level[i].clone().concat(level[i + 1].as_str());
            let parent = hash_str(combined.as_str());
            let ghost pv = parent@;
            proof {
                assert(combined@ == cur[i as int] + cur[i as int + 1]);
                assert(pv == next_level(cur)[i as int / 2]);
            }
            nl.push(parent);
            proof {
                assert(nl.deep_view() =~= nl_before.push(pv));
            }
            i += 1;
            i += 1;
        } else {
            let carried = level[i].clone();
            let ghost pv = carried@;
            proof {
                assert(pv == next_level(cur)[i as int / 2]);
            }
            nl.push(carried);
            proof {
                assert(nl.deep_view() =~= nl_before.push(pv));
            }
            i += 1;
        }
        proof {
            assert(nl.deep_view() =~= next_level(cur).take((i + 1) as int / 2));
        }
    }
    proof {
        assert(next_level(cur).take((i + 1) as int / 2) =~= next_level(cur));
    }
    nl
}

/// In the full stack of levels of a non-empty tree (leaves first, then the
/// derived internal levels), every level after the first is derived from the
/// one below it, every level is non-empty, the topmost level has exactly one
/// entry, and the root is that entry.
pub proof fn lemma_level_chain(leaves: Seq<Seq<char>>)
    requires
        leaves.len() >= 1,
    ensures
        ({
            let all = seq![leaves] + internal_levels(leaves);
            &&& forall|k: int| 1 <= k < all.len() ==> #[trigger] all[k] == next_level(all[k - 1])
            &&& forall|k: int| 0 <= k < all.len() ==> #[trigger] all[k].len() >= 1
            &&& all.last().len() == 1
            &&& root_spec(leaves) == Some(all.last()[0])
        }),
    decreases leaves.len(),
{
    let all = seq![leaves] + internal_levels(leaves);
    if leaves.len() == 1 {
        assert(internal_levels(leaves) =~= Seq::<Seq<Seq<char>>>::empty());
        assert(all.len() == 1);
        assert(all[0] == leaves);
    } else {
        let nl = next_level(leaves);
        assert(nl.len() == (leaves.len() + 1) / 2);
        lemma_level_chain(nl);
        let all_nl = seq![nl] + internal_levels(nl);
        assert(internal_levels(leaves) == seq![nl] + internal_levels(nl));
        assert(all =~= seq![leaves] + all_nl);
        assert forall|k: int| 1 <= k < all.len() implies #[trigger] all[k] == next_level(
            all[k - 1],
        ) by {
            if k == 1 {
                assert(all[0] == leaves);
                assert(all[1] == all_nl[0]);
                assert(all_nl[0] == nl);
            } else {
                assert(all[k] == all_nl[k - 1]);
                assert(all[k - 1] == all_nl[k - 2]);
            }
        }
        assert forall|k: int| 0 <= k < all.len() implies #[trigger] all[k].len() >= 1 by {
            if k == 0 {
                assert(all[0] == leaves);
            } else {
                assert(all[k] == all_nl[k - 1]);
            }
        }
        assert(all.last() == all_nl.last());
        assert(root_spec(leaves) == Some(internal_levels(leaves).last()[0])) by {
            assert(internal_levels(leaves).len() >= 1);
        }
        assert(internal_levels(leaves).last() == all_nl.last()) by {
            if internal_levels(nl).len() == 0 {
                assert(internal_levels(leaves).last() == nl);
                assert(all_nl.last() == nl);
            } else {
                assert(internal_levels(leaves).last() == internal_levels(nl).last());
                assert(all_nl.last() == internal_levels(nl).last());
            }
        }
    }
}

/// A Merkle tree over an ordered multiset of data items: the leaf digests,
/// the derived internal levels, and the original data values, index-aligned
/// with the leaves.
pub struct MerkleTree {
    pub leaves: Vec<String>,
    pub nodes: Vec<Vec<String>>,
    pub data_values: Vec<String>,
}

impl MerkleTree {
    /// The leaf digests as character sequences.
    pub open spec fn leaves_view(&self) -> Seq<Seq<char>> {
        self.leaves.deep_view()
    }

    /// The stored internal levels as sequences of character sequences.
    pub open spec fn levels_view(&self) -> Seq<Seq<Seq<char>>> {
        self.nodes.deep_view()
    }

    /// The stored data values as character sequences.
    pub open spec fn data_view(&self) -> Seq<Seq<char>> {
        self.data_values.deep_view()
    }

    /// Well-formedness: the leaves are exactly the digests of the stored
    /// data values, in insertion order, and the stored internal levels are
    /// exactly the levels derived from the leaves.
    pub open spec fn wf(&self) -> bool {
        &&& self.leaves_view() == leaves_of(self.data_view())
        &&& self.levels_view() == internal_levels(self.leaves_view())
    }

    /// An empty tree: no data, no leaves, no internal levels.
    pub fn new() -> (t: MerkleTree)
        ensures
            t.wf(),
            t.data_view() == Seq::<Seq<char>>::empty(),
            t.leaves_view() == Seq::<Seq<char>>::empty(),
    {
        let t = MerkleTree { leaves: Vec::new(), nodes: Vec::new(), data_values: Vec::new() };
        proof {
            assert(t.leaves_view() =~= Seq::<Seq<char>>::empty());
            assert(t.data_view() =~= Seq::<Seq<char>>::empty());
            assert(t.levels_view() =~= Seq::<Seq<Seq<char>>>::empty());
            assert(t.leaves_view() =~= leaves_of(t.data_view()));
        }
        t
    }

    /// Appends one data item: its digest becomes the next leaf, the value
    /// is recorded alongside, and every internal level is rebuilt from the
    /// leaves. Duplicate values are legal and yield duplicate leaves.
    pub fn insert(&mut self, data: String)
        requires
            old(self).wf(),
        ensures
            final(self).wf(),
            final(self).data_view() == old(self).data_view().push(data@),
            final(self).leaves_view() == old(self).leaves_view().push(digest_of(data@)),
    {
        let leaf_hash = hash_str(data.as_str());
        self.leaves.push(leaf_hash);
        self.data_values.push(data);
        proof {
            assert(self.data_view() =~= old(self).data_view().push(data@));
            assert(self.leaves_view() =~= old(self).leaves_view().push(digest_of(data@)));
            assert(self.leaves_view() =~= leaves_of(self.data_view()));
        }
        self.rebuild_levels();
    }

    /// Rebuilds every internal level from the current leaves.
    fn rebuild_levels(&mut self)
        requires
            old(self).leaves_view().len() >= 1,
        ensures
            final(self).leaves == old(self).leaves,
            final(self).data_values == old(self).data_values,
            final(self).levels_view() == internal_levels(final(self).leaves_view()),
    {
        self.nodes.clear();
        let mut current_level: Vec<String> = self.leaves.clone();
        proof {
            assert(current_level.deep_view() =~= self.leaves.deep_view());
            assert(self.nodes.deep_view() =~= Seq::<Seq<Seq<char>>>::empty());
            assert(internal_levels(self.leaves_view()) =~= self.nodes.deep_view()
                + internal_levels(current_level.deep_view()));
        }
        while current_level.len() > 1
            invariant
                self.leaves == old(self).leaves,
                self.data_values == old(self).data_values,
                current_level.deep_view().len() >= 1,
                internal_levels(self.leaves_view()) == self.nodes.deep_view() + internal_levels(
                    current_level.deep_view(),
                ),
            decreases current_level.len(),
        {
            let ghost cur = current_level.deep_view();
            let nl = derive_next_level(&current_level);
            let next_copy = nl.clone();
            proof {
                assert(next_copy@ =~= nl@);
                assert(next_copy.deep_view() =~= next_level(cur));
            }
            self.nodes.push(next_copy);
            current_level = nl;
            proof {
                assert(self.nodes.deep_view() =~= self.nodes.deep_view().drop_last().push(
                    next_level(cur),
                ));
                assert(internal_levels(cur) == seq![next_level(cur)] + internal_levels(
                    next_level(cur),
                ));
                assert(internal_levels(self.leaves_view()) =~= self.nodes.deep_view()
                    + internal_levels(current_level.deep_view()));
            }
        }
        proof {
            assert(internal_levels(current_level.deep_view()) =~= Seq::<Seq<Seq<char>>>::empty());
            assert(self.nodes.deep_view() =~= internal_levels(self.leaves_view()));
        }
    }

    /// The root commitment of the tree: absent only for an empty tree.
    pub fn get_root(&self) -> (r: Option<String>)
        requires
            self.wf(),
        ensures
            r.deep_view() == root_spec(self.leaves_view()),
    {
        if self.nodes.len() > 0 {
            proof {
                assert(self.leaves_view().len() >= 1) by {
                    if self.leaves_view().len() == 0 {
                        assert(internal_levels(self.leaves_view()).len() == 0);
                    }
                }
                lemma_level_chain(self.leaves_view());
                let all = seq![self.leaves_view()] + internal_levels(self.leaves_view());
                assert(all.last() == self.levels_view().last());
                assert(self.levels_view().last() == self.nodes.deep_view()[self.nodes.len()
                    - 1]);
            }
            let last = &self.nodes[self.nodes.len() - 1];
            proof {
                assert(last.deep_view() == self.levels_view().last());
                assert(last.deep_view().len() == 1);
                assert(last@.len() == 1);
            }
            Some(last[0].clone())
        } else if self.leaves.len() > 0 {
            proof {
                assert(internal_levels(self.leaves_view()).len() == 0);
                assert(root_spec(self.leaves_view()) == Some(self.leaves_view()[0]));
            }
            Some(self.leaves[0].clone())
        } else {
            proof {
                assert(self.leaves_view().len() == 0);
            }
            None
        }
    }

    /// Folds a proof path over the digest of the proof's leaf value,
    /// yielding the candidate root the proof commits to.
    fn fold_proof(proof: &MerkleProof) -> (r: String)
        ensures
            r@ == fold_path(proof.proof_path.deep_view(), digest_of(proof.leaf_value@)),
    {
        let ghost full = proof.proof_path.deep_view();
        let ghost start = digest_of(proof.leaf_value@);
        let mut current = hash_str(proof.leaf_value.as_str());
        let n = proof.proof_path.len();
        let mut k: usize = 0;
        proof {
            assert(full.skip(0) =~= full);
        }
        while k < n
            invariant
                n == proof.proof_path.len(),
                full == proof.proof_path.deep_view(),
                k <= n,
                fold_path(full.skip(k as int), current@) == fold_path(full, start),
            decreases n - k,
        {
            let ghost before = current@;
            let pair = &proof.proof_path[k];
            let sibling = &pair.0;
            let is_right = pair.1;
            let combined = if is_right {
                current.clone().concat(sibling.as_str())
            } else {
                sibling.clone().concat(current.as_str())
            };
            current = hash_str(combined.as_str());
            k += 1;
            proof {
                let rest = full.skip(k as int - 1);
                assert(rest[0] == full[k as int - 1]);
                assert(rest[0] == (sibling@, is_right));
                assert(rest.drop_first() =~= full.skip(k as int));
                assert(current@ == if is_right {
                    combine(before, sibling@)
                } else {
                    combine(sibling@, before)
                });
                assert(fold_path(rest, before) == fold_path(full.skip(k as int), current@));
            }
        }
        proof {
            assert(full.skip(n as int) =~= Seq::<(Seq<char>, bool)>::empty());
        }
        current
    }

    /// Builds the inclusion proof for the requested value against the
    /// earliest leaf whose digest equals the value's digest; absent exactly
    /// when no leaf digest matches. At each level the in-bounds sibling is
    /// recorded together with its side; a lone carried-up digest contributes
    /// no entry.
    pub fn generate_proof(&self, leaf_value: &str) -> (r: Option<MerkleProof>)
        requires
            self.wf(),
        ensures
            match r {
                Some(p) => {
                    &&& self.leaves_view().contains(digest_of(leaf_value@))
                    &&& p.leaf_value@ == leaf_value@
                    &&& p.proof_path.deep_view() == path_spec(
                        seq![self.leaves_view()] + self.levels_view(),
                        self.leaves_view().index_of_first(digest_of(leaf_value@)).unwrap(),
                    )
                },
                None => !self.leaves_view().contains(digest_of(leaf_value@)),
            },
    {
        let leaf_hash = hash_str(leaf_value);
        let ghost target = digest_of(leaf_value@);
        let n = self.leaves.len();
        let mut found = false;
        let mut found_idx: usize = 0;
        let mut j: usize = 0;
        while j < n
            invariant
                n == self.leaves.len(),
                j <= n,
                leaf_hash@ == target,
                !found ==> forall|k: int| 0 <= k < j ==> self.leaves_view()[k] != target,
                found ==> found_idx < j && self.leaves_view()[found_idx as int] == target
                    && forall|k: int| 0 <= k < found_idx ==> self.leaves_view()[k] != target,
            decreases n - j,
        {
            if !found && self.leaves[j] == leaf_hash {
                found = true;
                found_idx = j;
            }
            j += 1;
        }
        if !found {
            proof {
                assert(forall|k: int|
                    0 <= k < self.leaves_view().len() ==> self.leaves_view()[k] != target);
                assert(!self.leaves_view().contains(target));
            }
            return None;
        }
        proof {
            assert(self.leaves_view().contains(target)) by {
                assert(self.leaves_view()[found_idx as int] == target);
            }
            self.leaves_view().index_of_first_ensures(target);
            let fi = self.leaves_view().index_of_first(target).unwrap();
            assert(fi == found_idx) by {
                if fi < found_idx {
                    assert(self.leaves_view()[fi] != target);
                } else if fi > found_idx {
                    assert(self.leaves_view()[found_idx as int] != target);
                }
            }
        }
        let ghost all = seq![self.leaves_view()] + self.levels_view();
        proof {
            lemma_level_chain(self.leaves_view());
            assert(all[0] == self.leaves_view());
        }
        let mut path: Vec<(String, bool)> = Vec::new();
        let mut idx: usize = found_idx;
        let mut li: usize = 0;
        let mut current: &Vec<String> = &self.leaves;
        proof {
            assert(all.skip(0) =~= all);
        }
        while li < self.nodes.len()
            invariant
                self.wf(),
                all == seq![self.leaves_view()] + self.levels_view(),
                all.len() == self.nodes.len() + 1,
                li <= self.nodes.len(),
                current.deep_view() == all[li as int],
                (idx as int) < all[li as int].len(),
                forall|k: int| 1 <= k < all.len() ==> #[trigger] all[k] == next_level(all[k - 1]),
                forall|k: int| 0 <= k < all.len() ==> #[trigger] all[k].len() >= 1,
                path.deep_view() + path_spec(all.skip(li as int), idx as int) == path_spec(
                    all,
                    found_idx as int,
                ),
            decreases self.nodes.len() - li,
        {
            let ghost path_before = path.deep_view();
            let ghost idx_before = idx as int;
            let sibling = if idx % 2 == 0 {
                idx + 1
            } else {
                idx - 1
            };
            if sibling < current.len() {
                let entry = (current[sibling].clone(), idx % 2 == 0);
                let ghost ev = (entry.0@, entry.1);
                proof {
                    assert(ev == (all[li as int][sibling as int], idx_before % 2 == 0));
                }
                path.push(entry);
                proof {
                    assert(path.deep_view() =~= path_before.push(ev));
                }
            }
            idx = idx / 2;
            current = &self.nodes[li];
            li += 1;
            proof {
                let prev = all.skip(li as int - 1);
                assert(prev.len() >= 2);
                assert(prev[0] == all[li as int - 1]);
                assert(prev.drop_first() =~= all.skip(li as int));
                assert(current.deep_view() == self.levels_view()[li as int - 1]);
                assert(all[li as int] == self.levels_view()[li as int - 1]);
                assert(all[li as int] == next_level(all[li as int - 1]));
                assert(next_level(all[li as int - 1]).len() == (all[li as int - 1].len() + 1)
                    / 2);
                assert((idx as int) < all[li as int].len());
                assert(path.deep_view() + path_spec(all.skip(li as int), idx as int)
                    =~= path_before + path_spec(prev, idx_before));
            }
        }
        proof {
            assert(all.skip(self.nodes.len() as int).len() == 1);
            assert(path_spec(all.skip(li as int), idx as int) =~= Seq::<(Seq<char>,
                bool)>::empty());
            assert(path.deep_view() =~= path.deep_view() + Seq::<(Seq<char>, bool)>::empty());
        }
        Some(MerkleProof { leaf_value: leaf_value.to_owned(), proof_path: path })
    }

    /// Recomputes a candidate root by folding the proof path over the leaf's
    /// digest and compares it with the tree's own root; against an empty
    /// tree every proof is rejected.
    pub fn verify_proof(&self, proof: &MerkleProof) -> (r: bool)
        requires
            self.wf(),
        ensures
            r == (root_spec(self.leaves_view()) == Some(
                fold_path(proof.proof_path.deep_view(), digest_of(proof.leaf_value@)),
            )),
    {
        let current = Self::fold_proof(proof);
        match self.get_root() {
            Some(root) => root == current,
            None => false,
        }
    }

    /// Folds the proof path over the leaf's digest and compares the result
    /// with a caller-supplied root; no tree state is consulted, which is the
    /// mode for a verifier that holds only a previously published root.
    pub fn verify_external_proof(proof: &MerkleProof, expected_root: &String) -> (r: bool)
        ensures
            r == (fold_path(proof.proof_path.deep_view(), digest_of(proof.leaf_value@))
                == expected_root@),
    {
        let current = Self::fold_proof(proof);
        current == *expected_root
    }
}

/// Folding the sibling path recorded from any leaf position of a non-empty
/// tree over that leaf's digest reconstructs the tree's root.
pub proof fn lemma_fold_path_root(leaves: Seq<Seq<char>>, i: int)
    requires
        leaves.len() >= 1,
        0 <= i < leaves.len(),
    ensures
        root_spec(leaves) == Some(
            fold_path(path_spec(seq![leaves] + internal_levels(leaves), i), leaves[i]),
        ),
    decreases leaves.len(),
{
    let all = seq![leaves] + internal_levels(leaves);
    if leaves.len() == 1 {
        assert(internal_levels(leaves) =~= Seq::<Seq<Seq<char>>>::empty());
        assert(all.len() == 1);
        assert(path_spec(all, i) == Seq::<(Seq<char>, bool)>::empty());
        assert(root_spec(leaves) == Some(leaves[0]));
    } else {
        let nl = next_level(leaves);
        let all_nl = seq![nl] + internal_levels(nl);
        assert(internal_levels(leaves) == seq![nl] + internal_levels(nl));
        assert(all.drop_first() =~= all_nl);
        assert(all[0] == leaves);
        assert(nl.len() == (leaves.len() + 1) / 2);
        let sibling: int = if i % 2 == 0 {
            i + 1
        } else {
            i - 1
        };
        let rest = path_spec(all_nl, i / 2);
        if 0 <= sibling < leaves.len() {
            let step = if i % 2 == 0 {
                combine(leaves[i], leaves[i + 1])
            } else {
                combine(leaves[i - 1], leaves[i])
            };
            assert(step == nl[i / 2]) by {
                if i % 2 == 0 {
                    assert(2 * (i / 2) == i);
                } else {
                    assert(2 * (i / 2) == i - 1);
                }
            }
            let head = (leaves[sibling], i % 2 == 0);
            assert(path_spec(all, i) == seq![head] + rest);
            assert((seq![head] + rest)[0] == head);
            assert((seq![head] + rest).drop_first() =~= rest);
            assert(fold_path(seq![head] + rest, leaves[i]) == fold_path(rest, step));
        } else {
            assert(i % 2 == 0 && i == leaves.len() - 1);
            assert(nl[i / 2] == leaves[i]) by {
                assert(2 * (i / 2) == i);
            }
            assert(path_spec(all, i) == rest);
        }
        assert(0 <= i / 2 < nl.len());
        lemma_fold_path_root(nl, i / 2);
        assert(root_spec(leaves) == root_spec(nl)) by {
            lemma_level_chain(leaves);
            lemma_level_chain(nl);
            assert(all.last() == all_nl.last()) by {
                assert(all.len() == all_nl.len() + 1);
                assert(all[all.len() - 1] == all_nl[all_nl.len() - 1]);
            }
        }
        assert(fold_path(path_spec(all, i), leaves[i]) == fold_path(rest, nl[i / 2]));
    }
}

/// Determinism of the commitment: two well-formed trees holding the same
/// data values in the same order have the same root.
pub proof fn lemma_root_deterministic(t1: MerkleTree, t2: MerkleTree)
    requires
        t1.wf(),
        t2.wf(),
        t1.data_view() == t2.data_view(),
    ensures
        root_spec(t1.leaves_view()) == root_spec(t2.leaves_view()),
{
    assert(t1.leaves_view() == t2.leaves_view());
}

/// Proof round-trip: a proof whose path was recorded for the earliest leaf
/// equal to a digest present among the leaves folds back to the tree's own
/// root, so `verify_proof` accepts exactly what `generate_proof` produced.
pub proof fn lemma_proof_round_trip(t: MerkleTree, d: Seq<char>, path: Seq<(Seq<char>, bool)>)
    requires
        t.wf(),
        t.leaves_view().contains(d),
        path == path_spec(
            seq![t.leaves_view()] + t.levels_view(),
            t.leaves_view().index_of_first(d).unwrap(),
        ),
    ensures
        root_spec(t.leaves_view()) == Some(fold_path(path, d)),
{
    t.leaves_view().index_of_first_ensures(d);
    let fi = t.leaves_view().index_of_first(d).unwrap();
    assert(t.leaves_view()[fi] == d);
    lemma_fold_path_root(t.leaves_view(), fi);
}

/// External round-trip: the same generated proof also folds back to the
/// root when that root is supplied from outside, so `verify_external_proof`
/// accepts it against the published root of the tree it came from.
pub proof fn lemma_external_round_trip(t: MerkleTree, d: Seq<char>, path: Seq<(Seq<char>, bool)>)
    requires
        t.wf(),
        t.leaves_view().contains(d),
        path == path_spec(
            seq![t.leaves_view()] + t.levels_view(),
            t.leaves_view().index_of_first(d).unwrap(),
        ),
    ensures
        root_spec(t.leaves_view()) matches Some(root) && fold_path(path, d) == root,
{
    lemma_proof_round_trip(t, d, path);
}

/// Negative proof: a value whose digest differs from every inserted item's
/// digest has no leaf, so `generate_proof` returns nothing for it.
pub proof fn lemma_absent_value_no_proof(t: MerkleTree, v: Seq<char>)
    requires
        t.wf(),
        forall|j: int| 0 <= j < t.data_view().len() ==> digest_of(#[trigger] t.data_view()[j])
            != digest_of(v),
    ensures
        !t.leaves_view().contains(digest_of(v)),
{
    assert forall|j: int| 0 <= j < t.leaves_view().len() implies #[trigger] t.leaves_view()[j]
        != digest_of(v) by {
        assert(t.leaves_view()[j] == digest_of(t.data_view()[j]));
    }
}

} // verus!
