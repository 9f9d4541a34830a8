use merkle_service::dispatch::build_tree;
use merkle_service::tree::{MerkleProof, MerkleTree};
use sha2::Digest;

fn h(s: &str) -> String {
    hex::encode(sha2::Sha256::digest(s.as_bytes()))
}

fn tree_of(items: &[&str]) -> MerkleTree {
    let data: Vec<String> = items.iter().map(|s| s.to_string()).collect();
    build_tree(&data)
}

#[test]
fn determinism_same_data_same_root() {
    let t1 = tree_of(&["a", "b", "c"]);
    let t2 = tree_of(&["a", "b", "c"]);
    let r1 = t1.get_root().unwrap();
    let r2 = t2.get_root().unwrap();
    assert_eq!(r1, r2);
    let hab = h(&format!("{}{}", h("a"), h("b")));
    let expected = h(&format!("{}{}", hab, h("c")));
    assert_eq!(r1, expected);
}

#[test]
fn proof_round_trip() {
    let t = tree_of(&["a", "b", "c", "d", "e"]);
    for v in ["a", "b", "c", "d", "e"] {
        let p = t.generate_proof(v).expect("value is present");
        assert_eq!(p.leaf_value, v);
        assert!(t.verify_proof(&p));
    }
}

#[test]
fn external_round_trip() {
    let t = tree_of(&["a", "b", "c", "d", "e"]);
    let root = t.get_root().unwrap();
    for v in ["a", "b", "c", "d", "e"] {
        let p = t.generate_proof(v).expect("value is present");
        assert!(MerkleTree::verify_external_proof(&p, &root));
    }
    let p = t.generate_proof("a").unwrap();
    let other_root = h("not the root");
    assert!(!MerkleTree::verify_external_proof(&p, &other_root));
}

#[test]
fn negative_proof_absent() {
    let t = tree_of(&["a", "b", "c"]);
    assert!(t.generate_proof("z").is_none());
    assert!(t.generate_proof("").is_none());
    assert!(t.generate_proof("aa").is_none());
}

#[test]
fn tamper_sensitivity() {
    let t = tree_of(&["a", "b", "c", "d", "e"]);
    let p = t.generate_proof("b").expect("value is present");
    assert!(t.verify_proof(&p));
    for entry in 0..p.proof_path.len() {
        let sibling_len = p.proof_path[entry].0.len();
        for pos in 0..sibling_len {
            let mut chars: Vec<char> = p.proof_path[entry].0.chars().collect();
            chars[pos] = if chars[pos] == '0' { '1' } else { '0' };
            let tampered_sibling: String = chars.into_iter().collect();
            if tampered_sibling == p.proof_path[entry].0 {
                continue;
            }
            let mut path = Vec::new();
            for (k, (sib, side)) in p.proof_path.iter().enumerate() {
                if k == entry {
                    path.push((tampered_sibling.clone(), *side));
                } else {
                    path.push((sib.clone(), *side));
                }
            }
            let tampered = MerkleProof { leaf_value: p.leaf_value.clone(), proof_path: path };
            assert!(!t.verify_proof(&tampered));
        }
    }
}

#[test]
fn odd_arity_carry() {
    let t = tree_of(&["a", "b", "c"]);
    assert_eq!(t.leaves.len(), 3);
    assert_eq!(t.nodes.len(), 2);
    let hab = h(&format!("{}{}", h("a"), h("b")));
    assert_eq!(t.nodes[0], vec![hab.clone(), h("c")]);
    let root = h(&format!("{}{}", hab, h("c")));
    assert_eq!(t.get_root().unwrap(), root);
    let p = t.generate_proof("c").expect("value is present");
    assert_eq!(p.proof_path.len(), 1);
    assert_eq!(p.proof_path[0], (hab, false));
    assert!(t.verify_proof(&p));
}

#[test]
fn single_leaf_tree() {
    let t = tree_of(&["x"]);
    assert_eq!(t.get_root().unwrap(), h("x"));
    let p = t.generate_proof("x").expect("value is present");
    assert!(p.proof_path.is_empty());
    assert!(t.verify_proof(&p));
}

#[test]
fn empty_tree_has_no_root() {
    let t = MerkleTree::new();
    assert!(t.get_root().is_none());
    assert!(t.generate_proof("a").is_none());
    let p = MerkleProof { leaf_value: "a".to_string(), proof_path: Vec::new() };
    assert!(!t.verify_proof(&p));
}

#[test]
fn duplicate_values_use_first_match() {
    let t = tree_of(&["a", "a"]);
    assert_eq!(t.get_root().unwrap(), h(&format!("{}{}", h("a"), h("a"))));
    let p = t.generate_proof("a").expect("value is present");
    assert_eq!(p.proof_path, vec![(h("a"), true)]);
    assert!(t.verify_proof(&p));
}

#[test]
fn insert_rebuilds_root_incrementally() {
    let mut t = MerkleTree::new();
    t.insert("a".to_string());
    assert_eq!(t.get_root().unwrap(), h("a"));
    t.insert("b".to_string());
    assert_eq!(t.get_root().unwrap(), h(&format!("{}{}", h("a"), h("b"))));
    t.insert("c".to_string());
    let hab = h(&format!("{}{}", h("a"), h("b")));
    assert_eq!(t.get_root().unwrap(), h(&format!("{}{}", hab, h("c"))));
}

#[test]
fn four_leaves_balanced_tree() {
    let t = tree_of(&["a", "b", "c", "d"]);
    let hab = h(&format!("{}{}", h("a"), h("b")));
    let hcd = h(&format!("{}{}", h("c"), h("d")));
    assert_eq!(t.get_root().unwrap(), h(&format!("{}{}", hab, hcd)));
    let p = t.generate_proof("c").unwrap();
    assert_eq!(p.proof_path, vec![(h("d"), true), (hab, false)]);
}
