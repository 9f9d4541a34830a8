use merkle_service::dispatch::{process_request, Request};
use merkle_service::snapshot::snapshot_of;
use sha2::Digest;

fn h(s: &str) -> String {
    hex::encode(sha2::Sha256::digest(s.as_bytes()))
}

fn strings(items: &[&str]) -> Vec<String> {
    items.iter().map(|s| s.to_string()).collect()
}

fn three_leaf_root() -> String {
    let hab = h(&format!("{}{}", h("a"), h("b")));
    h(&format!("{}{}", hab, h("c")))
}

#[test]
fn prove_scenario() {
    let req = Request {
        operation: "prove".to_string(),
        data: strings(&["a", "b", "c"]),
        proof_request: Some("b".to_string()),
        proof: None,
    };
    let resp = process_request(&req);
    assert_eq!(resp.root, Some(three_leaf_root()));
    let proof = resp.proof.expect("value is present");
    assert_eq!(proof.leaf_value, "b");
    assert!(resp.verified.is_none());
    assert!(resp.receipt.is_none());
}

#[test]
fn verify_scenario_accepts_valid_proof() {
    let prove = Request {
        operation: "prove".to_string(),
        data: strings(&["a", "b", "c"]),
        proof_request: Some("b".to_string()),
        proof: None,
    };
    let proof = process_request(&prove).proof.expect("value is present");
    let verify = Request {
        operation: "verify".to_string(),
        data: strings(&["a", "b", "c"]),
        proof_request: None,
        proof: Some(proof),
    };
    let resp = process_request(&verify);
    assert_eq!(resp.verified, Some(true));
    assert_eq!(resp.root, Some(three_leaf_root()));
}

#[test]
fn verify_scenario_rejects_proof_against_other_data() {
    let prove = Request {
        operation: "prove".to_string(),
        data: strings(&["a", "b", "c"]),
        proof_request: Some("b".to_string()),
        proof: None,
    };
    let proof = process_request(&prove).proof.expect("value is present");
    let verify = Request {
        operation: "verify".to_string(),
        data: strings(&["a", "b", "d"]),
        proof_request: None,
        proof: Some(proof),
    };
    let resp = process_request(&verify);
    assert_eq!(resp.verified, Some(false));
}

#[test]
fn insert_scenario_returns_root_only() {
    let req = Request {
        operation: "insert".to_string(),
        data: strings(&["a", "b"]),
        proof_request: None,
        proof: None,
    };
    let resp = process_request(&req);
    assert_eq!(resp.root, Some(h(&format!("{}{}", h("a"), h("b")))));
    assert!(resp.proof.is_none());
    assert!(resp.verified.is_none());
    assert!(resp.receipt.is_none());
}

#[test]
fn prove_absent_value_yields_no_proof() {
    let req = Request {
        operation: "prove".to_string(),
        data: strings(&["a", "b", "c"]),
        proof_request: Some("z".to_string()),
        proof: None,
    };
    let resp = process_request(&req);
    assert_eq!(resp.root, Some(three_leaf_root()));
    assert!(resp.proof.is_none());
}

#[test]
fn unknown_operation_yields_empty_response() {
    let req = Request {
        operation: "frobnicate".to_string(),
        data: strings(&["a"]),
        proof_request: None,
        proof: None,
    };
    let resp = process_request(&req);
    assert!(resp.root.is_none());
    assert!(resp.proof.is_none());
    assert!(resp.verified.is_none());
    assert!(resp.receipt.is_none());
}

#[test]
fn verify_without_proof_yields_no_verdict() {
    let req = Request {
        operation: "verify".to_string(),
        data: strings(&["a", "b"]),
        proof_request: None,
        proof: None,
    };
    let resp = process_request(&req);
    assert!(resp.verified.is_none());
    assert_eq!(resp.root, Some(h(&format!("{}{}", h("a"), h("b")))));
}

#[test]
fn snapshot_exposes_levels_and_mapping() {
    let data = strings(&["a", "b", "c"]);
    let s = snapshot_of(&data);
    assert_eq!(s.level_sizes, vec![3, 2, 1]);
    assert_eq!(s.tree_structure.len(), 3);
    assert_eq!(s.tree_structure[0], vec![h("a"), h("b"), h("c")]);
    let hab = h(&format!("{}{}", h("a"), h("b")));
    assert_eq!(s.tree_structure[1], vec![hab.clone(), h("c")]);
    assert_eq!(s.tree_structure[2], vec![h(&format!("{}{}", hab, h("c")))]);
    assert_eq!(
        s.data_to_hash_mapping,
        vec![
            ("a".to_string(), h("a")),
            ("b".to_string(), h("b")),
            ("c".to_string(), h("c")),
        ]
    );
}

#[test]
fn snapshot_keeps_duplicate_pairs() {
    let data = strings(&["a", "a"]);
    let s = snapshot_of(&data);
    assert_eq!(s.level_sizes, vec![2, 1]);
    assert_eq!(
        s.data_to_hash_mapping,
        vec![("a".to_string(), h("a")), ("a".to_string(), h("a"))]
    );
}
