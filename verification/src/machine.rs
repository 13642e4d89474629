//! The plan runner as an abstract machine: its state as values, and what
//! each step does to it. Running a plan is deterministic once the order in
//! which the fetches are answered is fixed: `start_spec` gives the state and
//! the requests after the start, and `answer_spec` what handing back one
//! answer does, for every waiting fetch and every plan, parallel nodes
//! included.
//!
//! Flatten nodes that run side by side each take their data from the
//! results when they start and merge it back when they end. At a path that
//! ends in `@`, an array merged back replaces the one there, so of two such
//! nodes at one path, the data of the one that ends last is what stays.
use vstd::prelude::*;
use crate::assoc::get_key;
use crate::executor::ExecError;
use crate::fetch::{merge_fetch_spec, representations_spec};
use crate::json::JsonV;
use crate::merge::merge_spec;
use crate::path::{flatten_spec, merge_at_path_spec, path_view};
use crate::plan::{FetchNode, PlanNode};

verus! {

/// What is left to do once the current node of a branch has completed.
pub enum FrameV {
    /// Run the nodes of a sequence from `next` on, on the data `scope`.
    SeqRest { nodes: Seq<PlanNode>, next: int, scope: int },
    /// Merge the data `inner` back into the data `parent` at the path.
    EndFlatten { parent: int, inner: int, path: Seq<Seq<char>> },
    /// The branch is one of those of the parallel node with this number.
    Join(int),
}

/// A fetch waiting for its answer: what its branch does once it is
/// answered, the data its answer is merged into, and how.
#[verifier::ext_equal]
pub struct PendV {
    pub stack: Seq<FrameV>,
    pub scope: int,
    pub has_requires: bool,
    pub reps: Seq<int>,
}

/// A parallel node: how many of its branches still run, and what follows
/// it once they have all completed.
#[verifier::ext_equal]
pub struct JoinV {
    pub remaining: int,
    pub stack: Seq<FrameV>,
}

/// The state of a plan being run: the data of each scope (the results
/// first, then the data of the flatten nodes being run), the fetches (none
/// once answered), the parallel nodes, and whether the plan has run to its
/// end.
#[verifier::ext_equal]
pub struct MachineV {
    pub store: Seq<JsonV>,
    pub pending: Seq<Option<PendV>>,
    pub joins: Seq<JoinV>,
    pub finished: bool,
}

/// A request asked for: the number its answer is handed back under, the
/// fetch of the plan, and the data it was prepared from.
pub struct ActV {
    pub id: int,
    pub fetch: FetchNode,
    pub source: JsonV,
}

/// What running part of a plan leaves: the state, the requests asked for
/// so far, and whether the part completed (with what is left to do), waits,
/// or failed. Where it failed, the state is not described.
#[verifier::ext_equal]
pub struct RunV {
    pub m: MachineV,
    pub acts: Seq<ActV>,
    pub r: Result<Option<Seq<FrameV>>, ExecError>,
}

/// What one step of a branch leaves: it stops (waits, or the plan ends),
/// goes on with the frames given, or fails.
pub enum StepV {
    Stopped(MachineV, Seq<ActV>),
    Goes(MachineV, Seq<FrameV>, Seq<ActV>),
    Failed(ExecError),
}

pub open spec fn set_store(m: MachineV, s: Seq<JsonV>) -> MachineV {
    MachineV { store: s, pending: m.pending, joins: m.joins, finished: m.finished }
}

pub open spec fn set_pending(m: MachineV, p: Seq<Option<PendV>>) -> MachineV {
    MachineV { store: m.store, pending: p, joins: m.joins, finished: m.finished }
}

pub open spec fn set_joins(m: MachineV, j: Seq<JoinV>) -> MachineV {
    MachineV { store: m.store, pending: m.pending, joins: j, finished: m.finished }
}

/// A fetch on the data `scope`: the service must be known and the
/// representations found; then it waits, and its request is asked for.
pub open spec fn fetch_step(m: MachineV, f: FetchNode, scope: int, cont: Seq<FrameV>, acts: Seq<ActV>, services: Seq<(Seq<char>, Seq<char>)>) -> RunV {
    match get_key(services, f.service_name@) {
        None => RunV { m, acts, r: Err(ExecError::Selection) },
        Some(_) => {
            let prepared = match f.requires {
                None => Some((Seq::<JsonV>::empty(), Seq::<int>::empty())),
                Some(req) => representations_spec(m.store[scope], req@),
            };
            match prepared {
                None => RunV { m, acts, r: Err(ExecError::Selection) },
                Some((reps, ix)) => RunV {
                    m: set_pending(m, m.pending.push(Some(PendV { stack: cont, scope, has_requires: f.requires is Some, reps: ix }))),
                    acts: acts.push(ActV { id: m.pending.len() as int, fetch: f, source: m.store[scope] }),
                    r: Ok(None),
                },
            }
        },
    }
}

/// Running a node on the data `scope` until it completes (handing back
/// `cont`) or waits; `cont` is what is left to do after it.
pub open spec fn run_machine(m: MachineV, node: PlanNode, scope: int, cont: Seq<FrameV>, acts: Seq<ActV>, services: Seq<(Seq<char>, Seq<char>)>) -> RunV
    decreases node, 0nat,
{
    match node {
        PlanNode::Fetch(f) => fetch_step(m, f, scope, cont, acts, services),
        PlanNode::Sequence { nodes } => {
            proof {
                assert(decreases_to!(node => nodes));
                assert(decreases_to!(nodes => nodes@));
            }
            run_seq_machine(m, nodes@, 0, scope, cont, acts, services)
        },
        PlanNode::Parallel { nodes } => {
            proof {
                assert(decreases_to!(node => nodes));
                assert(decreases_to!(nodes => nodes@));
            }
            let j = m.joins.len() as int;
            let m1 = set_joins(m, m.joins.push(JoinV { remaining: nodes@.len() as int, stack: cont }));
            let o = run_par_machine(m1, nodes@, 0, j, scope, acts, services);
            match o.r {
                Err(_) => o,
                _ => if o.m.joins[j].remaining == 0 {
                    RunV {
                        m: set_joins(o.m, o.m.joins.update(j, JoinV { remaining: 0, stack: Seq::empty() })),
                        acts: o.acts,
                        r: Ok(Some(o.m.joins[j].stack)),
                    }
                } else {
                    RunV { m: o.m, acts: o.acts, r: Ok(None) }
                },
            }
        },
        PlanNode::Flatten(fl) => {
            let path = path_view(fl.path@);
            match flatten_spec(m.store[scope], path) {
                None => RunV { m, acts, r: Err(ExecError::Flatten) },
                Some((left, flat)) => {
                    let inner = m.store.len() as int;
                    let m1 = set_store(m, m.store.update(scope, left).push(merge_spec(JsonV::Object(Seq::empty()), flat)));
                    proof {
                        assert(decreases_to!(node => fl));
                        assert(decreases_to!(fl => fl.node));
                    }
                    let o = run_machine(m1, *fl.node, inner, cont.push(FrameV::EndFlatten { parent: scope, inner, path }), acts, services);
                    match o.r {
                        Ok(Some(c2)) => match merge_at_path_spec(o.m.store[scope], o.m.store[inner], path) {
                            None => RunV { m: o.m, acts: o.acts, r: Err(ExecError::Restitch) },
                            Some(v) => RunV { m: set_store(o.m, o.m.store.update(scope, v)), acts: o.acts, r: Ok(Some(c2.drop_last())) },
                        },
                        _ => o,
                    }
                },
            }
        },
    }
}

/// Running the nodes of a sequence from position `i` on, one after the
/// other, until one waits.
pub open spec fn run_seq_machine(m: MachineV, nodes: Seq<PlanNode>, i: nat, scope: int, cont: Seq<FrameV>, acts: Seq<ActV>, services: Seq<(Seq<char>, Seq<char>)>) -> RunV
    decreases nodes, nodes.len() - i,
{
    if i >= nodes.len() {
        RunV { m, acts, r: Ok(Some(cont)) }
    } else {
        proof {
            assert(decreases_to!(nodes => nodes[i as int]));
        }
        let o = run_machine(m, nodes[i as int], scope, cont.push(FrameV::SeqRest { nodes, next: (i + 1) as int, scope }), acts, services);
        match o.r {
            Ok(Some(c)) => run_seq_machine(o.m, nodes, i + 1, scope, c.drop_last(), o.acts, services),
            _ => o,
        }
    }
}

/// Starting the branches of the parallel node `j` from position `i` on:
/// each runs until it waits; one that completes at once is counted off.
pub open spec fn run_par_machine(m: MachineV, nodes: Seq<PlanNode>, i: nat, j: int, scope: int, acts: Seq<ActV>, services: Seq<(Seq<char>, Seq<char>)>) -> RunV
    decreases nodes, nodes.len() - i,
{
    if i >= nodes.len() {
        RunV { m, acts, r: Ok(None) }
    } else {
        proof {
            assert(decreases_to!(nodes => nodes[i as int]));
        }
        let o = run_machine(m, nodes[i as int], scope, seq![FrameV::Join(j)], acts, services);
        match o.r {
            Err(_) => o,
            Ok(None) => run_par_machine(o.m, nodes, i + 1, j, scope, o.acts, services),
            Ok(Some(_)) => run_par_machine(
                set_joins(o.m, o.m.joins.update(j, JoinV { remaining: o.m.joins[j].remaining - 1, stack: o.m.joins[j].stack })),
                nodes, i + 1, j, scope, o.acts, services,
            ),
        }
    }
}

/// One step of a branch with the frames `stack`: the top frame is done.
/// An empty stack ends the plan; the rest of a sequence runs its next node;
/// a flatten merges its data back; a branch of a parallel node is counted
/// off, and the last one goes on with what follows the node.
pub open spec fn step_machine(m: MachineV, stack: Seq<FrameV>, acts: Seq<ActV>, services: Seq<(Seq<char>, Seq<char>)>) -> StepV {
    if stack.len() == 0 {
        StepV::Stopped(MachineV { store: m.store, pending: m.pending, joins: m.joins, finished: true }, acts)
    } else {
        let rest = stack.drop_last();
        match stack.last() {
            FrameV::SeqRest { nodes, next, scope } => if 0 <= next < nodes.len() {
                let o = run_machine(m, nodes[next], scope, rest.push(FrameV::SeqRest { nodes, next: next + 1, scope }), acts, services);
                match o.r {
                    Err(e) => StepV::Failed(e),
                    Ok(None) => StepV::Stopped(o.m, o.acts),
                    Ok(Some(c)) => StepV::Goes(o.m, c, o.acts),
                }
            } else {
                StepV::Goes(m, rest, acts)
            },
            FrameV::EndFlatten { parent, inner, path } => match merge_at_path_spec(m.store[parent], m.store[inner], path) {
                None => StepV::Failed(ExecError::Restitch),
                Some(v) => StepV::Goes(set_store(m, m.store.update(parent, v)), rest, acts),
            },
            FrameV::Join(j) => if m.joins[j].remaining == 1 {
                StepV::Goes(set_joins(m, m.joins.update(j, JoinV { remaining: 0, stack: Seq::empty() })), m.joins[j].stack, acts)
            } else {
                StepV::Stopped(set_joins(m, m.joins.update(j, JoinV { remaining: m.joins[j].remaining - 1, stack: m.joins[j].stack })), acts)
            },
        }
    }
}

/// Going on with a branch, at most `fuel` steps, until it stops or fails;
/// none where the fuel runs out first.
pub open spec fn resume_machine(m: MachineV, stack: Seq<FrameV>, acts: Seq<ActV>, services: Seq<(Seq<char>, Seq<char>)>, fuel: nat) -> Option<RunV>
    decreases fuel,
{
    if fuel == 0 {
        None
    } else {
        match step_machine(m, stack, acts, services) {
            StepV::Stopped(m2, a2) => Some(RunV { m: m2, acts: a2, r: Ok(None) }),
            StepV::Failed(e) => Some(RunV { m, acts, r: Err(e) }),
            StepV::Goes(m2, s2, a2) => resume_machine(m2, s2, a2, services, (fuel - 1) as nat),
        }
    }
}

/// The state before a plan starts: the results are an empty object.
pub open spec fn initial_machine() -> MachineV {
    MachineV { store: seq![JsonV::Object(Seq::empty())], pending: Seq::empty(), joins: Seq::empty(), finished: false }
}

/// Starting a plan: its node runs on the results until every branch waits;
/// where it completes at once, the plan has run to its end.
pub open spec fn start_spec(node: PlanNode, services: Seq<(Seq<char>, Seq<char>)>) -> RunV {
    let o = run_machine(initial_machine(), node, 0, Seq::empty(), Seq::empty(), services);
    match o.r {
        Ok(Some(_)) => RunV {
            m: MachineV { store: o.m.store, pending: o.m.pending, joins: o.m.joins, finished: true },
            acts: o.acts,
            r: Ok(None),
        },
        _ => o,
    }
}

/// Handing back the answer to the waiting fetch `id` (none where sending
/// failed), going on for at most `fuel` steps: the fetch stops waiting, the
/// answer is merged into its data as `merge_fetch_spec` says (an answer that
/// cannot be merged is refused), and its branch goes on.
pub open spec fn answer_spec(m: MachineV, id: int, answer: Option<JsonV>, services: Seq<(Seq<char>, Seq<char>)>, fuel: nat) -> Option<RunV> {
    let p = m.pending[id]->0;
    let m1 = set_pending(m, m.pending.update(id, None));
    match answer {
        None => resume_machine(m1, p.stack, Seq::empty(), services, fuel),
        Some(d) => match merge_fetch_spec(m1.store[p.scope], p.has_requires, p.reps, d) {
            None => Some(RunV { m: m1, acts: Seq::empty(), r: Err(ExecError::Entities) }),
            Some(v) => resume_machine(set_store(m1, m1.store.update(p.scope, v)), p.stack, Seq::empty(), services, fuel),
        },
    }
}

/// Going on with a branch gives one outcome, whatever fuel is enough.
pub proof fn law_resume_deterministic(m: MachineV, stack: Seq<FrameV>, acts: Seq<ActV>, services: Seq<(Seq<char>, Seq<char>)>, f1: nat, f2: nat)
    requires
        resume_machine(m, stack, acts, services, f1) is Some,
        resume_machine(m, stack, acts, services, f2) is Some,
    ensures
        resume_machine(m, stack, acts, services, f1) == resume_machine(m, stack, acts, services, f2),
    decreases f1,
{
    match step_machine(m, stack, acts, services) {
        StepV::Goes(m2, s2, a2) => {
            law_resume_deterministic(m2, s2, a2, services, (f1 - 1) as nat, (f2 - 1) as nat);
        },
        _ => {},
    }
}

/// A sequence or a parallel node without nodes completes at once, wherever
/// it stands: the data stay as they are and nothing is asked for.
pub proof fn law_empty_nodes_complete_at_once(m: MachineV, nodes: Vec<PlanNode>, scope: int, cont: Seq<FrameV>, acts: Seq<ActV>, services: Seq<(Seq<char>, Seq<char>)>)
    requires
        nodes@.len() == 0,
    ensures
        run_machine(m, PlanNode::Sequence { nodes }, scope, cont, acts, services) == (RunV { m, acts, r: Ok(Some(cont)) }),
        run_machine(m, PlanNode::Parallel { nodes }, scope, cont, acts, services).m.store == m.store,
        run_machine(m, PlanNode::Parallel { nodes }, scope, cont, acts, services).m.pending == m.pending,
        run_machine(m, PlanNode::Parallel { nodes }, scope, cont, acts, services).acts == acts,
        run_machine(m, PlanNode::Parallel { nodes }, scope, cont, acts, services).r == Ok::<Option<Seq<FrameV>>, ExecError>(Some(cont)),
{
    assert(run_seq_machine(m, nodes@, 0, scope, cont, acts, services) == (RunV { m, acts, r: Ok(Some(cont)) }));
    let j = m.joins.len() as int;
    let m1 = set_joins(m, m.joins.push(JoinV { remaining: 0, stack: cont }));
    assert(run_par_machine(m1, nodes@, 0, j, scope, acts, services) == (RunV { m: m1, acts, r: Ok(None) }));
    assert(m1.joins[j].remaining == 0);
}

/// An answer to a fetch that is all that is left of its branch of a
/// parallel node, while other branches of that node still run, is merged into
/// the fetch's data (the data stay as they are where sending failed), the
/// branch is counted off, and nothing else happens; this holds wherever the
/// parallel node stands in the plan.
pub proof fn law_parallel_branch_answer(m: MachineV, id: int, answer: Option<JsonV>, services: Seq<(Seq<char>, Seq<char>)>, fuel: nat)
    requires
        0 <= id < m.pending.len(),
        m.pending[id] is Some,
        m.pending[id]->0.stack.len() == 1,
        m.pending[id]->0.stack[0] is Join,
        0 <= m.pending[id]->0.stack[0]->Join_0 < m.joins.len(),
        m.joins[m.pending[id]->0.stack[0]->Join_0].remaining != 1,
        fuel > 0,
        answer matches Some(d) ==> merge_fetch_spec(m.store[m.pending[id]->0.scope], m.pending[id]->0.has_requires, m.pending[id]->0.reps, d) is Some,
    ensures
        answer_spec(m, id, answer, services, fuel) == Some(RunV {
            m: MachineV {
                store: match answer {
                    None => m.store,
                    Some(d) => m.store.update(
                        m.pending[id]->0.scope,
                        merge_fetch_spec(m.store[m.pending[id]->0.scope], m.pending[id]->0.has_requires, m.pending[id]->0.reps, d).unwrap(),
                    ),
                },
                pending: m.pending.update(id, None),
                joins: m.joins.update(m.pending[id]->0.stack[0]->Join_0, JoinV {
                    remaining: m.joins[m.pending[id]->0.stack[0]->Join_0].remaining - 1,
                    stack: m.joins[m.pending[id]->0.stack[0]->Join_0].stack,
                }),
                finished: m.finished,
            },
            acts: Seq::empty(),
            r: Ok(None),
        }),
{
    let p = m.pending[id]->0;
    assert(p.stack.drop_last() =~= Seq::<FrameV>::empty());
    assert(p.stack.last() == p.stack[0]);
}

} // verus!
