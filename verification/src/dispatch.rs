use crate::hash::digest_of;
use crate::tree::{
    fold_path, internal_levels, leaves_of, path_spec, root_spec, MerkleProof, MerkleTree,
};
use vstd::prelude::*;
use vstd::string::StringExecFns;

verus! {

/// One request to the dispatcher: an operation tag (`insert`, `prove` or
/// `verify`), the ordered data items to commit to, an optional value to
/// prove inclusion for, and an optional proof to check.
pub struct Request {
    pub operation: String,
    pub data: Vec<String>,
    pub proof_request: Option<String>,
    pub proof: Option<MerkleProof>,
}

/// One response: the root of the tree built for the request, the generated
/// proof, the verification verdict — each only where the operation produces
/// it — and an attestation token, which this library never sets: it belongs
/// to the execution substrate around it.
pub struct Response {
    pub root: Option<String>,
    pub proof: Option<MerkleProof>,
    pub verified: Option<bool>,
    pub receipt: Option<String>,
}

/// Builds a fresh tree by inserting every item of `data`, in order.
pub fn build_tree(data: &Vec<String>) -> (t: MerkleTree)
    ensures
        t.wf(),
        t.data_view() == data.deep_view(),
{
    let mut t = MerkleTree::new();
    let mut i: usize = 0;
    proof {
        assert(t.data_view() =~= data.deep_view().take(0));
    }
    while i < data.len()
        invariant
            t.wf(),
            i <= data.len(),
            t.data_view() == data.deep_view().take(i as int),
        decreases data.len() - i,
    {
        t.insert(data[i].clone());
        i += 1;
        proof {
            assert(t.data_view() =~= data.deep_view().take(i as int));
        }
    }
    proof {
        assert(data.deep_view().take(data.len() as int) =~= data.deep_view());
    }
    t
}

/// Dispatches one request over its operation tag. `insert` responds with
/// the root of the tree built from the data; `prove` additionally generates
/// an inclusion proof for the requested value; `verify` rebuilds the tree
/// and checks the supplied proof against its root; any other tag yields an
/// empty response rather than an error.
pub fn process_request(req: &Request) -> (r: Response)
    ensures
        ({
            let lv = leaves_of(req.data.deep_view());
            &&& (req.operation@ == "insert"@ ==> {
                &&& r.root.deep_view() == root_spec(lv)
                &&& r.proof is None
                &&& r.verified is None
            })
            &&& (req.operation@ == "prove"@ ==> {
                &&& r.root.deep_view() == root_spec(lv)
                &&& r.verified is None
                &&& match req.proof_request {
                    Some(v) => match r.proof {
                        Some(p) => {
                            &&& lv.contains(digest_of(v@))
                            &&& p.leaf_value@ == v@
                            &&& p.proof_path.deep_view() == path_spec(
                                seq![lv] + internal_levels(lv),
                                lv.index_of_first(digest_of(v@)).unwrap(),
                            )
                        },
                        None => !lv.contains(digest_of(v@)),
                    },
                    None => r.proof is None,
                }
            })
            &&& (req.operation@ == "verify"@ ==> {
                &&& r.root.deep_view() == root_spec(lv)
                &&& r.proof is None
                &&& match req.proof {
                    Some(pf) => r.verified == Some(
                        root_spec(lv) == Some(
                            fold_path(pf.proof_path.deep_view(), digest_of(pf.leaf_value@)),
                        ),
                    ),
                    None => r.verified is None,
                }
            })
            &&& (req.operation@ != "insert"@ && req.operation@ != "prove"@ && req.operation@
                != "verify"@ ==> {
                &&& r.root is None
                &&& r.proof is None
                &&& r.verified is None
            })
            &&& r.receipt is None
        }),
{
    proof {
        reveal_strlit("insert");
        reveal_strlit("prove");
        reveal_strlit("verify");
        assert("insert"@ != "prove"@) by {
            assert("insert"@.len() == 6);
            assert("prove"@.len() == 5);
        }
        assert("insert"@ != "verify"@) by {
            assert("insert"@[0] == 'i');
            assert("verify"@[0] == 'v');
        }
        assert("prove"@ != "verify"@) by {
            assert("prove"@.len() == 5);
            assert("verify"@.len() == 6);
        }
    }
    let op_insert = String::from_str("insert");
    let op_prove = String::from_str("prove");
    let op_verify = String::from_str("verify");
    if req.operation == op_insert {
        let tree = build_tree(&req.data);
        let root = tree.get_root();
        Response { root, proof: None, verified: None, receipt: None }
    } else if req.operation == op_prove {
        let tree = build_tree(&req.data);
        let proof = match &req.proof_request {
            Some(v) => tree.generate_proof(v.as_str()),
            None => None,
        };
        let root = tree.get_root();
        Response { root, proof, verified: None, receipt: None }
    } else if req.operation == op_verify {
        let tree = build_tree(&req.data);
        let verified = match &req.proof {
            Some(pf) => Some(tree.verify_proof(pf)),
            None => None,
        };
        let root = tree.get_root();
        Response { root, proof: None, verified, receipt: None }
    } else {
        Response { root: None, proof: None, verified: None, receipt: None }
    }
}

} // verus!
