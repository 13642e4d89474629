//! What running a plan computes, node by node, when the fetches are answered
//! one after the other: a fetch takes the next answer (none, where sending
//! failed or no answer is left), the nodes of a sequence run in order, and a
//! flatten node runs its node on the data at its path and merges the outcome
//! back.
use vstd::prelude::*;
use crate::assoc::get_key;
use crate::fetch::{merge_fetch_spec, representations_key, representations_spec};
use crate::json::JsonV;
use crate::merge::merge_spec;
use crate::path::{flatten_spec, merge_at_path_spec, path_view};
use crate::plan::{FetchNode, PlanNode};
use crate::services::ServiceList;

verus! {

/// The next answer: the first of those left, or none where none is left.
pub open spec fn next_answer(answers: Seq<Option<JsonV>>) -> Option<JsonV> {
    if answers.len() > 0 {
        answers[0]
    } else {
        None
    }
}

/// The answers left once the next one is taken.
pub open spec fn later_answers(answers: Seq<Option<JsonV>>) -> Seq<Option<JsonV>> {
    if answers.len() > 0 {
        answers.drop_first()
    } else {
        answers
    }
}

/// The plan has no parallel node with branches: its fetches run one after
/// the other.
pub open spec fn parallel_free(node: PlanNode) -> bool
    decreases node, 0nat,
{
    match node {
        PlanNode::Parallel { nodes } => nodes@.len() == 0,
        PlanNode::Sequence { nodes } => all_parallel_free(nodes@, 0),
        PlanNode::Fetch(_) => true,
        PlanNode::Flatten(fl) => parallel_free(*fl.node),
    }
}

/// The nodes from position `i` on have no parallel node with branches.
pub open spec fn all_parallel_free(nodes: Seq<PlanNode>, i: nat) -> bool
    decreases nodes, nodes.len() - i,
{
    if i >= nodes.len() {
        true
    } else {
        parallel_free(nodes[i as int]) && all_parallel_free(nodes, i + 1)
    }
}

/// A request as it is sent: the service's address, the operation, and the
/// variables.
pub struct SentV {
    pub url: Seq<char>,
    pub query: Seq<char>,
    pub variables: JsonV,
}

/// What running part of a plan gives: the requests sent, in order, and the
/// data with the answers left, or none where running fails (the requests
/// sent until then are still listed).
#[verifier::ext_equal]
pub struct Trace {
    pub sent: Seq<SentV>,
    pub out: Option<(JsonV, Seq<Option<JsonV>>)>,
}

/// Nothing sent, and the outcome given.
pub open spec fn quiet(out: Option<(JsonV, Seq<Option<JsonV>>)>) -> Trace {
    Trace { sent: Seq::empty(), out }
}

/// The variables sent with a fetch: the representations where the fetch
/// requires fields of entities, else none.
pub open spec fn variables_spec(f: FetchNode, reps: Seq<JsonV>) -> JsonV {
    match f.requires {
        None => JsonV::Object(Seq::empty()),
        Some(_) => JsonV::Object(seq![(representations_key(), JsonV::Array(reps))]),
    }
}

/// The request that a fetch sends when run on `data`: to the service's
/// address, the operation, with the variables of the representations found
/// in the data; none where the service is unknown or the representations
/// cannot be found.
pub open spec fn fetch_request(f: FetchNode, data: JsonV, services: Seq<(Seq<char>, Seq<char>)>) -> Option<SentV> {
    match get_key(services, f.service_name@) {
        None => None,
        Some(url) => {
            let prepared = match f.requires {
                None => Some((Seq::<JsonV>::empty(), Seq::<int>::empty())),
                Some(req) => representations_spec(data, req@),
            };
            match prepared {
                None => None,
                Some((reps, ix)) => Some(SentV { url, query: f.operation@, variables: variables_spec(f, reps) }),
            }
        },
    }
}

/// A fetch run on `data`: the service must be known and the representations
/// must be found before anything is sent; then the request is sent, and the
/// next answer is merged into the data as `merge_fetch_spec` says, and where
/// there is none the data stays as it is.
pub open spec fn fetch_spec(f: FetchNode, data: JsonV, services: Seq<(Seq<char>, Seq<char>)>, answers: Seq<Option<JsonV>>) -> Trace {
    match get_key(services, f.service_name@) {
        None => quiet(None),
        Some(url) => {
            let prepared = match f.requires {
                None => Some((Seq::<JsonV>::empty(), Seq::<int>::empty())),
                Some(req) => representations_spec(data, req@),
            };
            match prepared {
                None => quiet(None),
                Some((reps, ix)) => {
                    let sent = seq![SentV { url, query: f.operation@, variables: variables_spec(f, reps) }];
                    match next_answer(answers) {
                        None => Trace { sent, out: Some((data, later_answers(answers))) },
                        Some(d) => match merge_fetch_spec(data, f.requires is Some, ix, d) {
                            None => Trace { sent, out: None },
                            Some(v) => Trace { sent, out: Some((v, later_answers(answers))) },
                        },
                    }
                },
            }
        },
    }
}

/// A node run on `data`, with its fetches answered in order from `answers`.
/// A parallel node without branches leaves the data as it is; one with
/// branches is outside what this describes.
pub open spec fn run_spec(node: PlanNode, data: JsonV, services: Seq<(Seq<char>, Seq<char>)>, answers: Seq<Option<JsonV>>) -> Trace
    decreases node, 0nat,
{
    match node {
        PlanNode::Fetch(f) => fetch_spec(f, data, services, answers),
        PlanNode::Sequence { nodes } => run_seq_spec(nodes@, 0, data, services, answers),
        PlanNode::Flatten(fl) => match flatten_spec(data, path_view(fl.path@)) {
            None => quiet(None),
            Some((left, flat)) => {
                let t = run_spec(*fl.node, merge_spec(JsonV::Object(Seq::empty()), flat), services, answers);
                match t.out {
                    None => t,
                    Some((inner, rest)) => match merge_at_path_spec(left, inner, path_view(fl.path@)) {
                        None => Trace { sent: t.sent, out: None },
                        Some(v) => Trace { sent: t.sent, out: Some((v, rest)) },
                    },
                }
            },
        },
        PlanNode::Parallel { nodes } => if nodes@.len() == 0 {
            quiet(Some((data, answers)))
        } else {
            quiet(None)
        },
    }
}

/// The nodes from position `i` on, run one after the other on `data`.
pub open spec fn run_seq_spec(nodes: Seq<PlanNode>, i: nat, data: JsonV, services: Seq<(Seq<char>, Seq<char>)>, answers: Seq<Option<JsonV>>) -> Trace
    decreases nodes, nodes.len() - i,
{
    if i >= nodes.len() {
        quiet(Some((data, answers)))
    } else {
        let t = run_spec(nodes[i as int], data, services, answers);
        match t.out {
            None => t,
            Some((v, rest)) => {
                let t2 = run_seq_spec(nodes, i + 1, v, services, rest);
                Trace { sent: t.sent + t2.sent, out: t2.out }
            },
        }
    }
}

/// The node `n` is part of the plan `p`: it is `p` or part of one of its
/// nodes.
pub open spec fn within(p: PlanNode, n: PlanNode) -> bool
    decreases p, 0nat,
{
    if p == n {
        true
    } else {
        match p {
            PlanNode::Sequence { nodes } => within_any(nodes@, 0, n),
            PlanNode::Parallel { nodes } => within_any(nodes@, 0, n),
            PlanNode::Fetch(_) => false,
            PlanNode::Flatten(fl) => within(*fl.node, n),
        }
    }
}

/// The node `n` is part of one of the nodes from position `i` on.
pub open spec fn within_any(nodes: Seq<PlanNode>, i: nat, n: PlanNode) -> bool
    decreases nodes, nodes.len() - i,
{
    if i >= nodes.len() {
        false
    } else {
        within(nodes[i as int], n) || within_any(nodes, i + 1, n)
    }
}

proof fn lemma_within_any(nodes: Seq<PlanNode>, i: nat, n: PlanNode)
    ensures
        within_any(nodes, i, n) == exists|k: int| i <= k < nodes.len() && within(#[trigger] nodes[k], n),
    decreases nodes.len() - i,
{
    if i < nodes.len() {
        lemma_within_any(nodes, i + 1, n);
        if within(nodes[i as int], n) {
            assert(i <= i < nodes.len() && within(nodes[i as int], n));
        }
        if exists|k: int| i <= k < nodes.len() && within(#[trigger] nodes[k], n) {
            let k = choose|k: int| i <= k < nodes.len() && within(#[trigger] nodes[k], n);
            if k > i {
                assert(i + 1 <= k < nodes.len() && within(nodes[k], n));
            }
        }
    }
}

/// Being part of is transitive.
pub proof fn lemma_within_trans(a: PlanNode, b: PlanNode, c: PlanNode)
    requires
        within(a, b),
        within(b, c),
    ensures
        within(a, c),
    decreases a,
{
    if a != b {
        match a {
            PlanNode::Sequence { nodes } => {
                lemma_within_any(nodes@, 0, b);
                let k = choose|k: int| 0 <= k < nodes@.len() && within(#[trigger] nodes@[k], b);
                assert(decreases_to!(a => nodes));
                assert(decreases_to!(nodes => nodes@));
                assert(decreases_to!(nodes@ => nodes@[k]));
                lemma_within_trans(nodes@[k], b, c);
                lemma_within_any(nodes@, 0, c);
            },
            PlanNode::Parallel { nodes } => {
                lemma_within_any(nodes@, 0, b);
                let k = choose|k: int| 0 <= k < nodes@.len() && within(#[trigger] nodes@[k], b);
                assert(decreases_to!(a => nodes));
                assert(decreases_to!(nodes => nodes@));
                assert(decreases_to!(nodes@ => nodes@[k]));
                lemma_within_trans(nodes@[k], b, c);
                lemma_within_any(nodes@, 0, c);
            },
            PlanNode::Fetch(_) => {},
            PlanNode::Flatten(fl) => {
                assert(decreases_to!(a => fl));
                assert(decreases_to!(fl => *fl.node));
                lemma_within_trans(*fl.node, b, c);
            },
        }
    }
}

/// The nodes of a sequence or of a parallel node, and the node of a flatten
/// node, are part of the plan wherever it is.
pub proof fn lemma_within_child(p: PlanNode, n: PlanNode, i: int)
    requires
        within(p, n),
    ensures
        n is Sequence && 0 <= i < n->Sequence_nodes@.len() ==> within(p, n->Sequence_nodes@[i]),
        n is Parallel && 0 <= i < n->Parallel_nodes@.len() ==> within(p, n->Parallel_nodes@[i]),
        n is Flatten ==> within(p, *n->Flatten_0.node),
{
    match n {
        PlanNode::Sequence { nodes } => {
            if 0 <= i < nodes@.len() {
                assert(within(nodes@[i], nodes@[i]));
                lemma_within_any(nodes@, 0, nodes@[i]);
                lemma_within_trans(p, n, nodes@[i]);
            }
        },
        PlanNode::Parallel { nodes } => {
            if 0 <= i < nodes@.len() {
                assert(within(nodes@[i], nodes@[i]));
                lemma_within_any(nodes@, 0, nodes@[i]);
                lemma_within_trans(p, n, nodes@[i]);
            }
        },
        PlanNode::Flatten(fl) => {
            assert(within(*fl.node, *fl.node));
            lemma_within_trans(p, n, *fl.node);
        },
        PlanNode::Fetch(_) => {},
    }
}

/// Every fetch of the node names a service of the list.
pub open spec fn services_known(node: PlanNode, services: Seq<(Seq<char>, Seq<char>)>) -> bool
    decreases node, 0nat,
{
    match node {
        PlanNode::Fetch(f) => get_key(services, f.service_name@) is Some,
        PlanNode::Sequence { nodes } => all_known(nodes@, 0, services),
        PlanNode::Parallel { nodes } => all_known(nodes@, 0, services),
        PlanNode::Flatten(fl) => services_known(*fl.node, services),
    }
}

/// Every fetch of the nodes from position `i` on names a service of the list.
pub open spec fn all_known(nodes: Seq<PlanNode>, i: nat, services: Seq<(Seq<char>, Seq<char>)>) -> bool
    decreases nodes, nodes.len() - i,
{
    if i >= nodes.len() {
        true
    } else {
        services_known(nodes[i as int], services) && all_known(nodes, i + 1, services)
    }
}

proof fn lemma_all_known(nodes: Seq<PlanNode>, i: nat, services: Seq<(Seq<char>, Seq<char>)>, k: int)
    requires
        all_known(nodes, i, services),
        i <= k < nodes.len(),
    ensures
        services_known(nodes[k], services),
    decreases k - i,
{
    if k > i {
        lemma_all_known(nodes, i + 1, services, k);
    }
}

/// Every fetch of a part of a node whose fetches name known services names a
/// known service.
pub proof fn lemma_known_within(p: PlanNode, n: PlanNode, services: Seq<(Seq<char>, Seq<char>)>)
    requires
        services_known(p, services),
        within(p, n),
    ensures
        services_known(n, services),
    decreases p,
{
    if p != n {
        match p {
            PlanNode::Sequence { nodes } => {
                lemma_within_any(nodes@, 0, n);
                let k = choose|k: int| 0 <= k < nodes@.len() && within(#[trigger] nodes@[k], n);
                lemma_all_known(nodes@, 0, services, k);
                assert(decreases_to!(p => nodes));
                assert(decreases_to!(nodes => nodes@));
                assert(decreases_to!(nodes@ => nodes@[k]));
                lemma_known_within(nodes@[k], n, services);
            },
            PlanNode::Parallel { nodes } => {
                lemma_within_any(nodes@, 0, n);
                let k = choose|k: int| 0 <= k < nodes@.len() && within(#[trigger] nodes@[k], n);
                lemma_all_known(nodes@, 0, services, k);
                assert(decreases_to!(p => nodes));
                assert(decreases_to!(nodes => nodes@));
                assert(decreases_to!(nodes@ => nodes@[k]));
                lemma_known_within(nodes@[k], n, services);
            },
            PlanNode::Fetch(_) => {},
            PlanNode::Flatten(fl) => {
                assert(decreases_to!(p => fl));
                assert(decreases_to!(fl => *fl.node));
                lemma_known_within(*fl.node, n, services);
            },
        }
    }
}

/// Does every fetch of the node name a service of the list.
#[verifier::loop_isolation(false)]
pub fn plan_services_known(node: &PlanNode, services: &ServiceList) -> (r: bool)
    ensures
        r == services_known(*node, services@),
    decreases node,
{
    match node {
        PlanNode::Fetch(f) => services.url_of(&f.service_name).is_some(),
        PlanNode::Flatten(fl) => {
            assert(decreases_to!(*node => *fl));
            assert(decreases_to!(*fl => *fl.node));
            plan_services_known(&fl.node, services)
        },
        PlanNode::Sequence { nodes } => {
            let mut i: usize = 0;
            while i < nodes.len()
                invariant
                    i <= nodes.len(),
                    all_known(nodes@, 0, services@) == all_known(nodes@, i as nat, services@),
                decreases nodes.len() - i,
            {
                assert((*node)->Sequence_nodes == *nodes);
                assert(decreases_to!(*node => (*node)->Sequence_nodes));
                assert(decreases_to!(*nodes => nodes@));
                assert(decreases_to!(nodes@ => nodes@[i as int]));
                if !plan_services_known(&nodes[i], services) {
                    return false;
                }
                i += 1;
            }
            true
        },
        PlanNode::Parallel { nodes } => {
            let mut i: usize = 0;
            while i < nodes.len()
                invariant
                    i <= nodes.len(),
                    all_known(nodes@, 0, services@) == all_known(nodes@, i as nat, services@),
                decreases nodes.len() - i,
            {
                assert((*node)->Parallel_nodes == *nodes);
                assert(decreases_to!(*node => (*node)->Parallel_nodes));
                assert(decreases_to!(*nodes => nodes@));
                assert(decreases_to!(nodes@ => nodes@[i as int]));
                if !plan_services_known(&nodes[i], services) {
                    return false;
                }
                i += 1;
            }
            true
        },
    }
}

} // verus!
