//! Running a query plan as a state machine: the caller sends the fetches that
//! the machine asks for and hands back each answer; the machine decides what
//! happens to the results in between.
//!
//! The nodes of a sequence run one after the other; the nodes of a parallel
//! node are all started at once, each running until it waits for a fetch, and
//! the parallel node completes when all of them have. A flatten node runs its
//! node on the data taken from the results at its path, then merges that data
//! back.
//!
//! What every step does to the state is what `crate::machine` says: `start`
//! gives the state and requests of `start_spec`, and `on_response` those of
//! `answer_spec`, for every waiting fetch and every plan.
//!
//! For a plan without parallel branches, what the machine sends and the
//! results it ends with are those of `run_spec` when the fetches are answered
//! in the order in which they are asked for. For any plan, every request is
//! the one its fetch sends on the data it was prepared from; an answer to a
//! fetch that is all that is left of a branch of a parallel node is merged
//! into its data, and the last such answer goes on with what follows the
//! parallel node; and the machine has run to its end exactly when no fetch
//! waits.
use vstd::prelude::*;
use crate::fetch::{build_request, fetch_variables, indices_view, merge_fetch_spec, representations_spec, try_merge_fetch_result, GraphQLRequest, RequestContext};
use crate::json::{fields_view, Json, JsonV};
use crate::path::{flatten_spec, merge_at_path_spec, path_view, try_begin_flatten, try_merge_flattend_results};
use crate::plan::{FetchNode, FlattenNode, PlanNode, QueryPlan};
use crate::semantics::{all_parallel_free, fetch_request, fetch_spec, lemma_known_within, lemma_within_child, services_known, within, later_answers, next_answer, parallel_free, quiet, run_seq_spec, run_spec, SentV, Trace};
use crate::assoc::get_key;
use crate::services::ServiceList;
use crate::fetch::GraphQLResponse;
use crate::merge::merge_spec;
use crate::machine::{run_machine, run_par_machine, run_seq_machine, step_machine, resume_machine, answer_spec, start_spec, set_joins, set_pending, set_store, ActV, FrameV, JoinV, MachineV, PendV, RunV, StepV};

verus! {

/// What is left to do once the current node of a branch has completed.
enum Frame<'a> {
    /// Run the nodes of a sequence from `next` on, on the data `scope`.
    SeqRest { nodes: &'a Vec<PlanNode>, next: usize, scope: usize },
    /// Merge the data `inner` back into the data `parent` at the path.
    EndFlatten { parent: usize, inner: usize, path: &'a Vec<String> },
    /// The branch is one of those of a parallel node.
    Join(usize),
}

/// A branch waiting for the answer to a fetch.
struct Pending<'a> {
    stack: Vec<Frame<'a>>,
    scope: usize,
    has_requires: bool,
    reps_to_entity: Vec<usize>,
}

/// A parallel node with branches still running.
struct JoinState<'a> {
    remaining: usize,
    stack: Vec<Frame<'a>>,
}

/// A request that the caller must send to a service.
pub struct FetchAction {
    /// The number the answer is handed back under.
    pub id: usize,
    /// The fetch of the plan that the request is for.
    pub fetch: Ghost<FetchNode>,
    /// The data the request was prepared from.
    pub source: Ghost<JsonV>,
    /// The name of the service.
    pub service: String,
    /// The address of the service.
    pub url: String,
    /// What is sent to the service.
    pub request: GraphQLRequest,
}

/// Why running a plan stopped.
#[derive(Debug, PartialEq, Eq, Structural)]
pub enum ExecError {
    /// A selection set cannot be applied to the entities of a fetch.
    Selection,
    /// The results have no value at the path of a flatten node.
    Flatten,
    /// The data of a flatten node cannot be merged back at its path.
    Restitch,
    /// An answer to a fetch that requires entities has no `_entities`.
    Entities,
}

/// The continuation frames name existing data and parallel nodes.
spec fn frames_ok(stack: Seq<Frame>, nscopes: nat, njoins: nat) -> bool {
    forall|i: int| 0 <= i < stack.len() ==> frame_ok(#[trigger] stack[i], nscopes, njoins)
}

/// The frame names existing data and parallel nodes.
spec fn frame_ok(f: Frame, nscopes: nat, njoins: nat) -> bool {
    match f {
        Frame::SeqRest { nodes, next, scope } => scope < nscopes && next <= nodes@.len(),
        Frame::EndFlatten { parent, inner, path } => parent < nscopes && inner < nscopes,
        Frame::Join(j) => j < njoins,
    }
}

/// The work a frame still stands for: a sequence counts one for each node
/// not yet run, and one more for the frame itself.
spec fn frame_weight(f: Frame) -> nat {
    match f {
        Frame::SeqRest { nodes, next, scope } => if next <= nodes@.len() {
            (nodes@.len() - next) as nat + 1
        } else {
            1
        },
        _ => 1,
    }
}

/// The work a stack of frames still stands for.
spec fn stack_weight(s: Seq<Frame>) -> nat
    decreases s.len(),
{
    if s.len() == 0 {
        0
    } else {
        stack_weight(s.drop_last()) + frame_weight(s.last())
    }
}

/// The work held by parallel nodes for when all their branches are done.
spec fn stored(joins: Seq<JoinState>) -> nat
    decreases joins.len(),
{
    if joins.len() == 0 {
        0
    } else {
        stored(joins.drop_last()) + stack_weight(joins.last().stack@)
    }
}

proof fn lemma_stack_push(s: Seq<Frame>, f: Frame)
    ensures
        stack_weight(s.push(f)) == stack_weight(s) + frame_weight(f),
{
    assert(s.push(f).drop_last() =~= s);
}

proof fn lemma_stored_update(joins: Seq<JoinState>, i: int, j: JoinState)
    requires
        0 <= i < joins.len(),
    ensures
        stored(joins.update(i, j)) == stored(joins) - stack_weight(joins[i].stack@) + stack_weight(j.stack@),
    decreases joins.len(),
{
    if i < joins.len() - 1 {
        assert(joins.update(i, j).drop_last() =~= joins.drop_last().update(i, j));
        lemma_stored_update(joins.drop_last(), i, j);
    } else {
        assert(joins.update(i, j).drop_last() =~= joins.drop_last());
    }
}

/// Every waiting branch names existing data and parallel nodes.
spec fn pending_ok(pending: Seq<Option<Pending>>, nscopes: nat, njoins: nat) -> bool {
    forall|i: int| 0 <= i < pending.len() && (#[trigger] pending[i]) is Some ==> {
        &&& pending[i]->0.scope < nscopes
        &&& frames_ok(pending[i]->0.stack@, nscopes, njoins)
    }
}

/// Every parallel node's continuation names existing data and parallel nodes.
spec fn joins_ok(joins: Seq<JoinState>, nscopes: nat, njoins: nat) -> bool {
    forall|j: int| 0 <= j < joins.len() ==> frames_ok((#[trigger] joins[j]).stack@, nscopes, njoins)
}

proof fn lemma_frames_grow(stack: Seq<Frame>, s1: nat, j1: nat, s2: nat, j2: nat)
    requires
        frames_ok(stack, s1, j1),
        s1 <= s2,
        j1 <= j2,
    ensures
        frames_ok(stack, s2, j2),
{
    assert forall|i: int| 0 <= i < stack.len() implies frame_ok(#[trigger] stack[i], s2, j2) by {
        assert(frame_ok(stack[i], s1, j1));
    }
}

proof fn lemma_pending_grow(pending: Seq<Option<Pending>>, s1: nat, j1: nat, s2: nat, j2: nat)
    requires
        pending_ok(pending, s1, j1),
        s1 <= s2,
        j1 <= j2,
    ensures
        pending_ok(pending, s2, j2),
{
    assert forall|i: int| 0 <= i < pending.len() && (#[trigger] pending[i]) is Some implies {
        &&& pending[i]->0.scope < s2
        &&& frames_ok(pending[i]->0.stack@, s2, j2)
    } by {
        lemma_frames_grow(pending[i]->0.stack@, s1, j1, s2, j2);
    }
}

proof fn lemma_joins_grow(joins: Seq<JoinState>, s1: nat, j1: nat, s2: nat, j2: nat)
    requires
        joins_ok(joins, s1, j1),
        s1 <= s2,
        j1 <= j2,
    ensures
        joins_ok(joins, s2, j2),
{
    assert forall|j: int| 0 <= j < joins.len() implies frames_ok((#[trigger] joins[j]).stack@, s2, j2) by {
        lemma_frames_grow(joins[j].stack@, s1, j1, s2, j2);
    }
}

/// Extending the parallel nodes with ones that hold no frames leaves the
/// number of held frames as it was.
proof fn lemma_stored_extend(a: Seq<JoinState>, b: Seq<JoinState>)
    requires
        a.len() <= b.len(),
        forall|j: int| 0 <= j < a.len() ==> b[j] == a[j],
        forall|j: int| a.len() <= j < b.len() ==> (#[trigger] b[j]).stack@.len() == 0,
    ensures
        stored(b) == stored(a),
    decreases b.len(),
{
    if b.len() > a.len() {
        lemma_stored_extend(a, b.drop_last());
    } else {
        assert(b =~= a);
    }
}

/// An answer as a value.
pub open spec fn answer_view(answer: Option<&Json>) -> Option<JsonV> {
    match answer {
        Some(d) => Some(d@),
        None => None,
    }
}

/// The data of each scope, as values.
spec fn store(scopes: Seq<Json>) -> Seq<JsonV> {
    Seq::new(scopes.len(), |i: int| scopes[i]@)
}

/// A frame as a value.
spec fn frame_v(f: Frame) -> FrameV {
    match f {
        Frame::SeqRest { nodes, next, scope } => FrameV::SeqRest { nodes: nodes@, next: next as int, scope: scope as int },
        Frame::EndFlatten { parent, inner, path } => FrameV::EndFlatten { parent: parent as int, inner: inner as int, path: path_view(path@) },
        Frame::Join(j) => FrameV::Join(j as int),
    }
}

/// Frames as values.
spec fn stack_v(s: Seq<Frame>) -> Seq<FrameV> {
    Seq::new(s.len(), |i: int| frame_v(s[i]))
}

/// A waiting fetch as a value.
spec fn pend_v(o: Option<Pending>) -> Option<PendV> {
    match o {
        Some(p) => Some(PendV { stack: stack_v(p.stack@), scope: p.scope as int, has_requires: p.has_requires, reps: indices_view(p.reps_to_entity@) }),
        None => None,
    }
}

/// A parallel node as a value.
spec fn join_v(j: JoinState) -> JoinV {
    JoinV { remaining: j.remaining as int, stack: stack_v(j.stack@) }
}

/// The state of the executor as a value.
spec fn abs(ex: Executor) -> MachineV {
    MachineV {
        store: store(ex.scopes@),
        pending: Seq::new(ex.pending@.len(), |i: int| pend_v(ex.pending@[i])),
        joins: Seq::new(ex.joins@.len(), |i: int| join_v(ex.joins@[i])),
        finished: ex.finished,
    }
}

/// A request asked for, as a value.
pub open spec fn act_v(a: FetchAction) -> ActV {
    ActV { id: a.id as int, fetch: a.fetch@, source: a.source@ }
}

/// Requests asked for, as values.
pub open spec fn acts_v(a: Seq<FetchAction>) -> Seq<ActV> {
    Seq::new(a.len(), |i: int| act_v(a[i]))
}

/// What running a node leaves, as the machine says.
spec fn run_matches<'a>(
    s0: Executor<'a>,
    s1: Executor<'a>,
    node: PlanNode,
    scope: usize,
    cont: Seq<Frame<'a>>,
    a0: Seq<FetchAction>,
    a1: Seq<FetchAction>,
    r: Result<Option<Vec<Frame<'a>>>, ExecError>,
) -> bool {
    let o = run_machine(abs(s0), node, scope as int, stack_v(cont), acts_v(a0), s0.services@);
    match r {
        Err(e) => o.r == Err::<Option<Seq<FrameV>>, ExecError>(e),
        Ok(x) => o == RunV {
            m: abs(s1),
            acts: acts_v(a1),
            r: Ok(match x {
                Some(c) => Some(stack_v(c@)),
                None => None,
            }),
        },
    }
}

proof fn lemma_stack_v_push(s: Seq<Frame>, f: Frame)
    ensures
        stack_v(s.push(f)) == stack_v(s).push(frame_v(f)),
        stack_v(s.push(f)).drop_last() == stack_v(s),
{
    assert(stack_v(s.push(f)) =~= stack_v(s).push(frame_v(f)));
    assert(stack_v(s.push(f)).drop_last() =~= stack_v(s));
}

/// The frames of a branch that runs alone: none waits for other branches,
/// and the nodes left in each sequence have no parallel node.
spec fn linear(stack: Seq<Frame>) -> bool {
    forall|i: int| 0 <= i < stack.len() ==> match #[trigger] stack[i] {
        Frame::SeqRest { nodes, next, scope } => all_parallel_free(nodes@, next as nat),
        Frame::EndFlatten { .. } => true,
        Frame::Join(_) => false,
    }
}

/// What the rest of a branch computes from the data in `store`, its fetches
/// answered in order: the requests it sends, and the results of the plan at
/// the end with the answers left.
spec fn rest_spec(stack: Seq<Frame>, store: Seq<JsonV>, services: Seq<(Seq<char>, Seq<char>)>, answers: Seq<Option<JsonV>>) -> Trace
    decreases stack.len(),
{
    if stack.len() == 0 {
        quiet(Some((store[0], answers)))
    } else {
        match stack.last() {
            Frame::SeqRest { nodes, next, scope } => {
                let t = run_seq_spec(nodes@, next as nat, store[scope as int], services, answers);
                match t.out {
                    None => t,
                    Some((v, r)) => and_then(t, rest_spec(stack.drop_last(), store.update(scope as int, v), services, r)),
                }
            },
            Frame::EndFlatten { parent, inner, path } => match merge_at_path_spec(store[parent as int], store[inner as int], path_view(path@)) {
                None => quiet(None),
                Some(v) => rest_spec(stack.drop_last(), store.update(parent as int, v), services, answers),
            },
            Frame::Join(_) => quiet(None),
        }
    }
}

/// The requests of one run followed by those of another, and the outcome of
/// the second.
spec fn and_then(t: Trace, t2: Trace) -> Trace {
    Trace { sent: t.sent + t2.sent, out: t2.out }
}

/// A request sent before the rest.
pub open spec fn cons(x: SentV, t: Trace) -> Trace {
    Trace { sent: seq![x] + t.sent, out: t.out }
}

/// What a request asked for sends.
pub open spec fn sent_of(a: FetchAction) -> SentV {
    SentV {
        url: a.url@,
        query: a.request.query@,
        variables: match a.request.variables {
            Some(v) => v@,
            None => JsonV::Null,
        },
    }
}

/// A node's run on the data of `scope`, followed by the rest of the branch.
spec fn then_rest(t: Trace, stack: Seq<Frame>, store: Seq<JsonV>, scope: int, services: Seq<(Seq<char>, Seq<char>)>) -> Trace {
    match t.out {
        None => t,
        Some((v, r)) => and_then(t, rest_spec(stack, store.update(scope, v), services, r)),
    }
}

/// What a waiting fetch's branch computes once the fetch is answered with
/// `answer` (none where sending failed) and the later fetches with `rest`.
spec fn answered_spec(p: Pending, store: Seq<JsonV>, services: Seq<(Seq<char>, Seq<char>)>, answer: Option<JsonV>, rest: Seq<Option<JsonV>>) -> Trace {
    match answer {
        None => rest_spec(p.stack@, store, services, rest),
        Some(d) => match merge_fetch_spec(store[p.scope as int], p.has_requires, indices_view(p.reps_to_entity@), d) {
            None => quiet(None),
            Some(v) => rest_spec(p.stack@, store.update(p.scope as int, v), services, rest),
        },
    }
}

/// Data added after the scopes that the frames name changes nothing of what
/// the rest of the branch computes.
proof fn lemma_rest_extend(stack: Seq<Frame>, store: Seq<JsonV>, extra: Seq<JsonV>, services: Seq<(Seq<char>, Seq<char>)>, answers: Seq<Option<JsonV>>, njoins: nat)
    requires
        store.len() >= 1,
        frames_ok(stack, store.len(), njoins),
    ensures
        rest_spec(stack, store + extra, services, answers) == rest_spec(stack, store, services, answers),
    decreases stack.len(),
{
    if stack.len() > 0 {
        let rest = stack.drop_last();
        assert(frame_ok(stack[stack.len() - 1], store.len(), njoins));
        assert(frames_ok(rest, store.len(), njoins)) by {
            assert forall|i: int| 0 <= i < rest.len() implies frame_ok(#[trigger] rest[i], store.len(), njoins) by {
                assert(rest[i] == stack[i]);
            }
        }
        match stack.last() {
            Frame::SeqRest { nodes, next, scope } => {
                assert((store + extra)[scope as int] == store[scope as int]);
                let t = run_seq_spec(nodes@, next as nat, store[scope as int], services, answers);
                match t.out {
                    None => {},
                    Some((v, r)) => {
                        assert((store + extra).update(scope as int, v) =~= store.update(scope as int, v) + extra);
                        lemma_rest_extend(rest, store.update(scope as int, v), extra, services, r, njoins);
                    },
                }
            },
            Frame::EndFlatten { parent, inner, path } => {
                assert((store + extra)[parent as int] == store[parent as int]);
                assert((store + extra)[inner as int] == store[inner as int]);
                match merge_at_path_spec(store[parent as int], store[inner as int], path_view(path@)) {
                    None => {},
                    Some(v) => {
                        assert((store + extra).update(parent as int, v) =~= store.update(parent as int, v) + extra);
                        lemma_rest_extend(rest, store.update(parent as int, v), extra, services, answers, njoins);
                    },
                }
            },
            Frame::Join(_) => {},
        }
    } else {
        assert((store + extra)[0] == store[0]);
    }
}

/// Data that differs from `base` only at `scope` and by what follows it,
/// once `scope` is set, is `base` with `scope` set and the same data after.
proof fn lemma_store_split(st: Seq<JsonV>, base: Seq<JsonV>, scope: int, w: JsonV)
    requires
        st.len() >= base.len(),
        0 <= scope < base.len(),
        st.take(base.len() as int) == base.update(scope, st[scope]),
    ensures
        st.update(scope, w) == base.update(scope, w) + st.skip(base.len() as int),
{
    assert forall|k: int| 0 <= k < st.len() implies #[trigger] st.update(scope, w)[k] == (base.update(scope, w) + st.skip(base.len() as int))[k] by {
        if k < base.len() && k != scope {
            assert(st.take(base.len() as int)[k] == st[k]);
        }
    }
    assert(st.update(scope, w) =~= base.update(scope, w) + st.skip(base.len() as int));
}

/// The parallel node that a branch reports to once it completes; none for
/// the branch that ends the plan.
spec fn owner(stack: Seq<Frame>) -> Option<int> {
    if stack.len() > 0 && stack[0] is Join {
        Some(stack[0]->Join_0 as int)
    } else {
        None
    }
}

/// A `Join` frame stands only at the bottom of a stack.
spec fn join_at_bottom(stack: Seq<Frame>) -> bool {
    forall|i: int| 0 < i < stack.len() ==> !(#[trigger] stack[i] is Join)
}

/// The waiting fetches whose branch reports to `o`.
spec fn pcount(pending: Seq<Option<Pending>>, o: Option<int>) -> nat
    decreases pending.len(),
{
    if pending.len() == 0 {
        0
    } else {
        pcount(pending.drop_last(), o) + pone(pending.last(), o)
    }
}

/// The parallel nodes with branches still running whose own branch reports
/// to `o`.
spec fn jcount(joins: Seq<JoinState>, o: Option<int>) -> nat
    decreases joins.len(),
{
    if joins.len() == 0 {
        0
    } else {
        jcount(joins.drop_last(), o) + jone(joins.last(), o)
    }
}

/// Whether a waiting fetch counts for `o`.
spec fn pone(x: Option<Pending>, o: Option<int>) -> nat {
    if x is Some && owner(x->0.stack@) == o {
        1
    } else {
        0
    }
}

/// Whether a parallel node counts for `o`.
spec fn jone(x: JoinState, o: Option<int>) -> nat {
    if x.remaining > 0 && owner(x.stack@) == o {
        1
    } else {
        0
    }
}

proof fn lemma_pcount_push(p: Seq<Option<Pending>>, x: Option<Pending>, o: Option<int>)
    ensures
        pcount(p.push(x), o) == pcount(p, o) + pone(x, o),
{
    assert(p.push(x).drop_last() =~= p);
}

proof fn lemma_pcount_update(p: Seq<Option<Pending>>, i: int, x: Option<Pending>, o: Option<int>)
    requires
        0 <= i < p.len(),
    ensures
        pcount(p.update(i, x), o) == pcount(p, o) - pone(p[i], o) + pone(x, o),
    decreases p.len(),
{
    if i < p.len() - 1 {
        assert(p.update(i, x).drop_last() =~= p.drop_last().update(i, x));
        lemma_pcount_update(p.drop_last(), i, x, o);
    } else {
        assert(p.update(i, x).drop_last() =~= p.drop_last());
    }
}

proof fn lemma_jcount_push(js: Seq<JoinState>, x: JoinState, o: Option<int>)
    ensures
        jcount(js.push(x), o) == jcount(js, o) + jone(x, o),
{
    assert(js.push(x).drop_last() =~= js);
}

proof fn lemma_jcount_update(js: Seq<JoinState>, i: int, x: JoinState, o: Option<int>)
    requires
        0 <= i < js.len(),
    ensures
        jcount(js.update(i, x), o) == jcount(js, o) - jone(js[i], o) + jone(x, o),
    decreases js.len(),
{
    if i < js.len() - 1 {
        assert(js.update(i, x).drop_last() =~= js.drop_last().update(i, x));
        lemma_jcount_update(js.drop_last(), i, x, o);
    } else {
        assert(js.update(i, x).drop_last() =~= js.drop_last());
    }
}

/// A waiting fetch that counts for `o` makes the count positive, and a
/// positive count has one.
proof fn lemma_pcount_witness(p: Seq<Option<Pending>>, o: Option<int>)
    ensures
        (pcount(p, o) > 0) == (exists|i: int| 0 <= i < p.len() && #[trigger] pone(p[i], o) == 1),
    decreases p.len(),
{
    if p.len() > 0 {
        lemma_pcount_witness(p.drop_last(), o);
        if pcount(p.drop_last(), o) > 0 {
            let i = choose|i: int| 0 <= i < p.drop_last().len() && #[trigger] pone(p.drop_last()[i], o) == 1;
            assert(p[i] == p.drop_last()[i]);
        }
        if exists|i: int| 0 <= i < p.len() && #[trigger] pone(p[i], o) == 1 {
            let i = choose|i: int| 0 <= i < p.len() && #[trigger] pone(p[i], o) == 1;
            if i < p.len() - 1 {
                assert(p.drop_last()[i] == p[i]);
            }
        }
        if pone(p.last(), o) == 1 {
            assert(pone(p[p.len() - 1], o) == 1);
        }
    }
}

/// A parallel node that counts for `o` makes the count positive, and a
/// positive count has one.
proof fn lemma_jcount_witness(js: Seq<JoinState>, o: Option<int>)
    ensures
        (jcount(js, o) > 0) == (exists|i: int| 0 <= i < js.len() && #[trigger] jone(js[i], o) == 1),
    decreases js.len(),
{
    if js.len() > 0 {
        lemma_jcount_witness(js.drop_last(), o);
        if jcount(js.drop_last(), o) > 0 {
            let i = choose|i: int| 0 <= i < js.drop_last().len() && #[trigger] jone(js.drop_last()[i], o) == 1;
            assert(js[i] == js.drop_last()[i]);
        }
        if exists|i: int| 0 <= i < js.len() && #[trigger] jone(js[i], o) == 1 {
            let i = choose|i: int| 0 <= i < js.len() && #[trigger] jone(js[i], o) == 1;
            if i < js.len() - 1 {
                assert(js.drop_last()[i] == js[i]);
            }
        }
        if jone(js.last(), o) == 1 {
            assert(jone(js[js.len() - 1], o) == 1);
        }
    }
}

/// The branches held for `o`: those of waiting fetches and of parallel nodes
/// with branches still running.
spec fn holders(ex: Executor, o: Option<int>) -> nat {
    pcount(ex.pending@, o) + jcount(ex.joins@, o)
}

/// The branches of the parallel node `j` that are not held: those still
/// running.
spec fn deficit(ex: Executor, j: int) -> int {
    ex.joins@[j].remaining - holders(ex, Some(j))
}

/// Every stack has its `Join` frame at the bottom, and a parallel node with
/// branches still running reports to one created before it.
spec fn shape(ex: Executor) -> bool {
    &&& forall|i: int| 0 <= i < ex.pending@.len() && (#[trigger] ex.pending@[i]) is Some ==> join_at_bottom(ex.pending@[i]->0.stack@)
    &&& forall|j: int| 0 <= j < ex.joins@.len() ==> join_at_bottom((#[trigger] ex.joins@[j]).stack@)
    &&& forall|j: int| 0 <= j < ex.joins@.len() && (#[trigger] ex.joins@[j]).remaining > 0 && owner(ex.joins@[j].stack@) is Some
        ==> owner(ex.joins@[j].stack@)->0 < j
}

/// Every branch of every parallel node is held, and the branch that ends
/// the plan is held unless the plan has run to its end.
spec fn balanced(ex: Executor) -> bool {
    &&& forall|j: int| 0 <= j < ex.joins@.len() ==> #[trigger] deficit(ex, j) == 0
    &&& holders(ex, None) == if ex.finished { 0nat } else { 1nat }
}

/// How running a node changes what is held: where the branch was stored
/// (a fetch or parallel node waits for it), the one it reports to holds one
/// more; nothing else changes, and parallel nodes created on the way have
/// every branch held.
spec fn accounts(s0: Executor, s1: Executor, o: Option<int>, stored: bool) -> bool {
    &&& forall|j: int| 0 <= j < s0.joins@.len() ==> #[trigger] deficit(s1, j)
        == deficit(s0, j) - if stored && o == Some(j) { 1int } else { 0int }
    &&& forall|j: int| s0.joins@.len() <= j < s1.joins@.len() ==> #[trigger] deficit(s1, j) == 0
    &&& holders(s1, None) == holders(s0, None) + if stored && o is None { 1nat } else { 0nat }
}

proof fn lemma_accounts_trans(a: Executor, b: Executor, c: Executor, o: Option<int>, stored: bool)
    requires
        accounts(a, b, o, false),
        accounts(b, c, o, stored),
        a.joins@.len() <= b.joins@.len(),
        o is Some ==> o->0 < a.joins@.len(),
    ensures
        accounts(a, c, o, stored),
{
    assert forall|j: int| 0 <= j < a.joins@.len() implies #[trigger] deficit(c, j)
        == deficit(a, j) - if stored && o == Some(j) { 1int } else { 0int } by {
        assert(deficit(b, j) == deficit(a, j));
    }
    assert forall|j: int| a.joins@.len() <= j < c.joins@.len() implies #[trigger] deficit(c, j) == 0 by {
        if j < b.joins@.len() {
            assert(deficit(b, j) == 0);
        }
    }
}

/// Nothing is held differently where the waiting fetches and parallel nodes
/// are the same.
proof fn lemma_accounts_same(a: Executor, b: Executor, o: Option<int>)
    requires
        a.pending@ == b.pending@,
        a.joins@ == b.joins@,
    ensures
        accounts(a, b, o, false),
{
    assert forall|j: int| 0 <= j < a.joins@.len() implies #[trigger] deficit(b, j)
        == deficit(a, j) - if false && o == Some(j) { 1int } else { 0int } by {}
}

/// No waiting fetch and no parallel node reports to a parallel node that
/// does not exist yet.
proof fn lemma_no_holders(ex: Executor)
    requires
        ex.inv(),
        shape(ex),
    ensures
        holders(ex, Some(ex.joins@.len() as int)) == 0,
{
    let o = Some(ex.joins@.len() as int);
    lemma_pcount_witness(ex.pending@, o);
    lemma_jcount_witness(ex.joins@, o);
    assert forall|i: int| 0 <= i < ex.pending@.len() implies #[trigger] pone(ex.pending@[i], o) == 0 by {
        if ex.pending@[i] is Some && ex.pending@[i]->0.stack@.len() > 0 {
            assert(frame_ok(ex.pending@[i]->0.stack@[0], ex.scopes@.len() as nat, ex.joins@.len() as nat));
        }
    }
    assert forall|i: int| 0 <= i < ex.joins@.len() implies #[trigger] jone(ex.joins@[i], o) == 0 by {
        if ex.joins@[i].remaining > 0 && owner(ex.joins@[i].stack@) is Some {
            assert(owner(ex.joins@[i].stack@)->0 < i);
        }
    }
}

/// A frame other than `Join` pushed on a stack or popped off it leaves who
/// the branch reports to, and where its `Join` frame stands, as they were.
proof fn lemma_owner_push(st: Seq<Frame>, f: Frame)
    requires
        !(f is Join),
    ensures
        owner(st.push(f)) == owner(st),
        join_at_bottom(st) ==> join_at_bottom(st.push(f)),
        join_at_bottom(st.push(f)) ==> join_at_bottom(st),
{
    if st.len() > 0 {
        assert(st.push(f)[0] == st[0]);
    }
    assert forall|i: int| 0 < i < st.len() implies st.push(f)[i] == st[i] by {}
}

/// What is held depends only on the waiting fetches and the parallel nodes.
proof fn lemma_same_holds(a: Executor, b: Executor)
    requires
        a.pending@ == b.pending@,
        a.joins@ == b.joins@,
    ensures
        shape(a) ==> shape(b),
        forall|o: Option<int>| #[trigger] holders(b, o) == holders(a, o),
        forall|j: int| 0 <= j < a.joins@.len() ==> #[trigger] deficit(b, j) == deficit(a, j),
{
    if shape(a) {
        assert forall|i: int| 0 <= i < b.pending@.len() && (#[trigger] b.pending@[i]) is Some implies join_at_bottom(b.pending@[i]->0.stack@) by {
            assert(b.pending@[i] == a.pending@[i]);
        }
        assert forall|j: int| 0 <= j < b.joins@.len() implies join_at_bottom((#[trigger] b.joins@[j]).stack@) by {
            assert(b.joins@[j] == a.joins@[j]);
        }
        assert forall|j: int| 0 <= j < b.joins@.len() && (#[trigger] b.joins@[j]).remaining > 0 && owner(b.joins@[j].stack@) is Some
            implies owner(b.joins@[j].stack@)->0 < j by {
            assert(b.joins@[j] == a.joins@[j]);
        }
    }
    assert forall|j: int| 0 <= j < a.joins@.len() implies #[trigger] deficit(b, j) == deficit(a, j) by {
        assert(holders(b, Some(j)) == holders(a, Some(j)));
    }
}

/// A `Join` frame on top of a stack is the only frame of the stack.
proof fn lemma_join_last(st: Seq<Frame>)
    requires
        join_at_bottom(st),
        st.len() > 0,
        st.last() is Join,
    ensures
        st.len() == 1,
        owner(st) == Some(st.last()->Join_0 as int),
{
    if st.len() > 1 {
        assert(st[st.len() - 1] is Join);
    }
}

/// Changing one parallel node changes only what it holds.
proof fn lemma_join_change(a: Executor, b: Executor, j: int, y: JoinState)
    requires
        0 <= j < a.joins@.len(),
        b.pending@ == a.pending@,
        b.joins@ == a.joins@.update(j, y),
    ensures
        forall|o: Option<int>| #[trigger] holders(b, o) == holders(a, o) - jone(a.joins@[j], o) + jone(y, o),
{
    assert forall|o: Option<int>| #[trigger] holders(b, o) == holders(a, o) - jone(a.joins@[j], o) + jone(y, o) by {
        lemma_jcount_update(a.joins@, j, y, o);
    }
}

/// A parallel node with branches running means the branch that ends the plan
/// is held.
proof fn lemma_live_root(ex: Executor, j: int)
    requires
        shape(ex),
        balanced(ex),
        0 <= j < ex.joins@.len(),
        ex.joins@[j].remaining > 0,
    ensures
        holders(ex, None) >= 1,
    decreases j,
{
    let o = owner(ex.joins@[j].stack@);
    assert(jone(ex.joins@[j], o) == 1);
    lemma_jcount_witness(ex.joins@, o);
    if o is Some {
        let j2 = o->0;
        assert(j2 < j);
        assert(deficit(ex, j2) == 0);
        lemma_live_root(ex, j2);
    }
}

/// A parallel node with branches running means some fetch waits.
proof fn lemma_live_pending(ex: Executor, j: int)
    requires
        shape(ex),
        balanced(ex),
        0 <= j < ex.joins@.len(),
        ex.joins@[j].remaining > 0,
    ensures
        exists|i: int| 0 <= i < ex.pending@.len() && (#[trigger] ex.pending@[i]) is Some,
    decreases ex.joins@.len() - j,
{
    assert(deficit(ex, j) == 0);
    lemma_pcount_witness(ex.pending@, Some(j));
    lemma_jcount_witness(ex.joins@, Some(j));
    if pcount(ex.pending@, Some(j)) > 0 {
        let i = choose|i: int| 0 <= i < ex.pending@.len() && #[trigger] pone(ex.pending@[i], Some(j)) == 1;
        assert(ex.pending@[i] is Some);
    } else {
        let j2 = choose|i: int| 0 <= i < ex.joins@.len() && #[trigger] jone(ex.joins@[i], Some(j)) == 1;
        assert(owner(ex.joins@[j2].stack@)->0 < j2);
        lemma_live_pending(ex, j2);
    }
}

/// Every node is a fetch.
pub open spec fn all_fetches(nodes: Seq<PlanNode>) -> bool {
    forall|i: int| 0 <= i < nodes.len() ==> (#[trigger] nodes[i]) is Fetch
}

/// What running a node leaves: see `Executor::run`.
spec fn run_post<'a>(
    s0: Executor<'a>,
    s1: Executor<'a>,
    node: PlanNode,
    scope: usize,
    cont: Seq<Frame<'a>>,
    a0: Seq<FetchAction>,
    a1: Seq<FetchAction>,
    r: Result<Option<Vec<Frame<'a>>>, ExecError>,
) -> bool {
    &&& !(r matches Err(ExecError::Entities))
    &&& s1.inv()
    &&& s0.extends(s1)
    &&& run_matches(s0, s1, node, scope, cont, a0, a1, r)
    &&& r is Ok ==> {
        &&& s1.actions_ok(a1)
        &&& a1.len() >= a0.len()
        &&& a1.take(a0.len() as int) == a0
        &&& forall|k: int| a0.len() <= k < a1.len() ==> (#[trigger] a1[k]).id >= s0.pending@.len()
    }
    &&& r matches Ok(Some(c)) ==> {
        &&& c@ == cont
        &&& a1 == a0
        &&& forall|j: int| s0.joins@.len() <= j < s1.joins@.len() ==> (#[trigger] s1.joins@[j]).stack@.len() == 0
    }
    &&& r matches Ok(None) ==> a1.len() > a0.len()
    &&& r is Ok ==> shape(s1) && accounts(s0, s1, owner(cont), r matches Ok(None))
    &&& (node is Fetch && r is Ok) ==> {
        &&& r matches Ok(None)
        &&& s1.scopes == s0.scopes
        &&& a1.len() == a0.len() + 1
        &&& s1.pending@[a1.last().id as int]->0.stack@ == cont
        &&& s1.pending@[a1.last().id as int]->0.scope == scope
        &&& a1.last().fetch@ == node->Fetch_0
        &&& a1.last().source@ == store(s0.scopes@)[scope as int]
    }
    &&& (node is Parallel && node->Parallel_nodes@.len() > 0 && all_fetches(node->Parallel_nodes@) && r is Ok) ==> {
        &&& r matches Ok(None)
        &&& s1.scopes == s0.scopes
        &&& a1.len() == a0.len() + node->Parallel_nodes@.len()
        &&& s1.joins@[s0.joins@.len() as int].remaining == node->Parallel_nodes@.len()
        &&& s1.joins@[s0.joins@.len() as int].stack@ == cont
        &&& forall|k: int| 0 <= k < node->Parallel_nodes@.len() ==> {
            &&& s1.pending@[(#[trigger] a1[a0.len() + k]).id as int]->0.stack@ == seq![Frame::Join(s0.joins@.len() as usize)]
            &&& s1.pending@[a1[a0.len() + k].id as int]->0.scope == scope
            &&& a1[a0.len() + k].fetch@ == node->Parallel_nodes@[k]->Fetch_0
            &&& a1[a0.len() + k].source@ == store(s0.scopes@)[scope as int]
        }
    }
    &&& parallel_free(node) ==> {
        &&& r is Err ==> forall|ans: Seq<Option<JsonV>>|
            #[trigger] run_spec(node, store(s0.scopes@)[scope as int], s0.services@, ans) == quiet(None)
        &&& r matches Ok(Some(_)) ==> {
            &&& store(s1.scopes@).take(s0.scopes@.len() as int)
                == store(s0.scopes@).update(scope as int, store(s1.scopes@)[scope as int])
            &&& forall|ans: Seq<Option<JsonV>>|
                #[trigger] run_spec(node, store(s0.scopes@)[scope as int], s0.services@, ans)
                == quiet(Some((store(s1.scopes@)[scope as int], ans)))
        }
        &&& r matches Ok(None) ==> {
            &&& a1.len() == a0.len() + 1
            &&& linear(cont) ==> linear(s1.pending@[a1.last().id as int]->0.stack@)
            &&& forall|ans: Seq<Option<JsonV>>|
                then_rest(#[trigger] run_spec(node, store(s0.scopes@)[scope as int], s0.services@, ans), cont, store(s0.scopes@), scope as int, s0.services@)
                == cons(sent_of(a1.last()), answered_spec(s1.pending@[a1.last().id as int]->0, store(s1.scopes@), s0.services@, next_answer(ans), later_answers(ans)))
        }
    }
}

/// Where a branch stands while it goes on after the state `s0` handed it
/// the frames `k0`: see `Executor::resume`.
spec fn going<'a>(s0: Executor<'a>, a0: Seq<FetchAction>, k0: Seq<Frame<'a>>, ex: Executor<'a>, stack: Seq<Frame<'a>>, actions: Seq<FetchAction>) -> bool {
    &&& ex.inv()
    &&& s0.continues(ex)
    &&& frames_ok(stack, ex.scopes@.len() as nat, ex.joins@.len() as nat)
    &&& ex.actions_ok(actions)
    &&& actions == a0
    &&& linear(k0) ==> linear(stack)
    &&& shape(ex)
    &&& join_at_bottom(stack)
    &&& frames_within(stack, ex.plan@)
    &&& !ex.finished
    &&& forall|j: int| 0 <= j < ex.joins@.len() ==> #[trigger] deficit(ex, j) == if owner(stack) == Some(j) { 1int } else { 0int }
    &&& holders(ex, None) + (if owner(stack) is None { 1nat } else { 0nat }) == 1
    &&& linear(k0) ==> forall|ans: Seq<Option<JsonV>>|
        #[trigger] rest_spec(k0, store(s0.scopes@), s0.services@, ans) == rest_spec(stack, store(ex.scopes@), s0.services@, ans)
}

/// Where a branch has come to once it stops going on: see `Executor::resume`.
spec fn stopped<'a>(s0: Executor<'a>, a0: Seq<FetchAction>, k0: Seq<Frame<'a>>, ex: Executor<'a>, actions: Seq<FetchAction>) -> bool {
    &&& ex.inv()
    &&& s0.continues(ex)
    &&& ex.actions_ok(actions)
    &&& actions.len() >= a0.len()
    &&& actions.take(a0.len() as int) == a0
    &&& forall|k: int| a0.len() <= k < actions.len() ==> (#[trigger] actions[k]).id >= s0.pending@.len()
    &&& shape(ex)
    &&& balanced(ex)
    &&& linear(k0) ==> {
        ||| {
            &&& ex.finished
            &&& actions == a0
            &&& forall|ans: Seq<Option<JsonV>>|
                #[trigger] rest_spec(k0, store(s0.scopes@), s0.services@, ans) == quiet(Some((store(ex.scopes@)[0], ans)))
        }
        ||| {
            &&& actions.len() == a0.len() + 1
            &&& linear(ex.pending@[actions.last().id as int]->0.stack@)
            &&& forall|ans: Seq<Option<JsonV>>|
                #[trigger] rest_spec(k0, store(s0.scopes@), s0.services@, ans)
                == cons(sent_of(actions.last()), answered_spec(ex.pending@[actions.last().id as int]->0, store(ex.scopes@), s0.services@, next_answer(ans), later_answers(ans)))
        }
    }
}

/// The sequences that the frames go on with are part of the plan.
spec fn frames_within(stack: Seq<Frame>, plan: PlanNode) -> bool {
    forall|i: int| 0 <= i < stack.len() ==> match #[trigger] stack[i] {
        Frame::SeqRest { nodes, next, scope } => within(plan, PlanNode::Sequence { nodes: *nodes }),
        _ => true,
    }
}

/// The frames kept by waiting fetches and parallel nodes go on with parts of
/// the plan.
spec fn stacks_within(ex: Executor) -> bool {
    &&& forall|i: int| 0 <= i < ex.pending@.len() && (#[trigger] ex.pending@[i]) is Some ==> frames_within(ex.pending@[i]->0.stack@, ex.plan@)
    &&& forall|j: int| 0 <= j < ex.joins@.len() ==> frames_within((#[trigger] ex.joins@[j]).stack@, ex.plan@)
}

/// The state of a plan being run.
pub struct Executor<'a> {
    plan: Ghost<PlanNode>,
    services: &'a ServiceList,
    operation_name: Option<String>,
    scopes: Vec<Json>,
    pending: Vec<Option<Pending<'a>>>,
    joins: Vec<JoinState<'a>>,
    finished: bool,
}

/// A copy of an optional name.
fn copy_name(name: &Option<String>) -> (r: Option<String>)
    ensures
        r == *name,
{
    match name {
        Some(s) => Some(s.clone()),
        None => None,
    }
}

impl<'a> Executor<'a> {
    /// Every continuation frame names existing data and parallel nodes, and
    /// the results of the plan exist.
    pub closed spec fn inv(&self) -> bool {
        &&& self.scopes@.len() >= 1
        &&& pending_ok(self.pending@, self.scopes@.len() as nat, self.joins@.len() as nat)
        &&& joins_ok(self.joins@, self.scopes@.len() as nat, self.joins@.len() as nat)
        &&& stacks_within(*self)
        &&& services_known(self.plan@, self.services@)
    }

    /// The plan being run.
    pub closed spec fn plan_node(&self) -> PlanNode {
        self.plan@
    }

    /// The state of the run, as the machine of `crate::machine` sees it.
    pub closed spec fn state(&self) -> MachineV {
        abs(*self)
    }

    /// The fetch `id` waits for its answer.
    pub closed spec fn waiting(&self, id: int) -> bool {
        0 <= id < self.pending@.len() && self.pending@[id] is Some
    }

    /// The plan has run to its end.
    pub closed spec fn is_finished(&self) -> bool {
        self.finished
    }

    /// The results of the plan so far.
    pub closed spec fn data(&self) -> JsonV {
        self.scopes@[0]@
    }

    /// The data that the answer to the fetch `id` is merged into.
    pub closed spec fn target(&self, id: int) -> JsonV {
        self.scopes@[self.pending@[id]->0.scope as int]@
    }

    /// The fetch `id` asked for fields of entities.
    pub closed spec fn wants_entities(&self, id: int) -> bool {
        self.pending@[id]->0.has_requires
    }

    /// For the fetch `id`, the entity that each representation came from.
    pub closed spec fn entity_indices(&self, id: int) -> Seq<int> {
        indices_view(self.pending@[id]->0.reps_to_entity@)
    }

    /// Every branch that is running is accounted for: each parallel node
    /// waits for as many branches as are held for it, and the branch that
    /// ends the plan is held unless the plan has run to its end.
    pub closed spec fn settled(&self) -> bool {
        shape(*self) && balanced(*self)
    }

    /// The branch of the fetch `id` runs alone: no parallel node is left
    /// in it.
    pub closed spec fn runs_alone(&self, id: int) -> bool {
        linear(self.pending@[id]->0.stack@)
    }

    /// The fetch `id` is all that is left of its branch of a parallel node:
    /// once it is answered, the branch has completed.
    pub closed spec fn ends_branch(&self, id: int) -> bool {
        self.pending@[id]->0.stack@.len() == 1 && self.pending@[id]->0.stack@[0] is Join
    }

    /// The parallel node whose branch the fetch `id` ends.
    pub closed spec fn branch_parallel(&self, id: int) -> int {
        self.pending@[id]->0.stack@[0]->Join_0 as int
    }

    /// How many branches of that parallel node are still running, that of
    /// the fetch `id` among them.
    pub closed spec fn branches_left(&self, id: int) -> int {
        self.joins@[self.branch_parallel(id)].remaining as int
    }

    /// Other branches of that parallel node are still running.
    pub open spec fn siblings_running(&self, id: int) -> bool {
        self.branches_left(id) != 1
    }

    /// Nothing follows that parallel node: once all its branches have
    /// completed, the plan has run to its end.
    pub closed spec fn nothing_after_parallel(&self, id: int) -> bool {
        self.joins@[self.branch_parallel(id)].stack@.len() == 0
    }

    /// No parallel node is left in what follows that parallel node.
    pub closed spec fn after_parallel_alone(&self, id: int) -> bool {
        linear(self.joins@[self.branch_parallel(id)].stack@)
    }

    /// The data of every scope: the results first, then the data of the
    /// flatten nodes being run.
    pub closed spec fn scope_data(&self) -> Seq<JsonV> {
        store(self.scopes@)
    }

    /// The scope that the answer to the fetch `id` is merged into.
    pub closed spec fn target_scope(&self, id: int) -> int {
        self.pending@[id]->0.scope as int
    }

    /// The data of every scope once the answer to the fetch `id` is merged
    /// into its target as `merge_fetch_spec` says; unchanged where sending
    /// failed.
    pub open spec fn answered_data(&self, id: int, answer: Option<JsonV>) -> Seq<JsonV> {
        match answer {
            None => self.scope_data(),
            Some(d) => self.scope_data().update(
                self.target_scope(id),
                merge_fetch_spec(self.scope_data()[self.target_scope(id)], self.wants_entities(id), self.entity_indices(id), d).unwrap(),
            ),
        }
    }

    /// What the plan gives once the fetch `id`, the last running branch of
    /// its parallel node, is answered with `answer` and the fetches after it,
    /// one after the other, with `rest`: the answer is merged, and what
    /// follows the parallel node goes on.
    pub closed spec fn parallel_outcome(&self, id: int, answer: Option<JsonV>, rest: Seq<Option<JsonV>>) -> Trace {
        let p = self.pending@[id]->0;
        answered_spec(
            Pending { stack: self.joins@[self.branch_parallel(id)].stack, scope: p.scope, has_requires: p.has_requires, reps_to_entity: p.reps_to_entity },
            store(self.scopes@),
            self.services@,
            answer,
            rest,
        )
    }

    /// What the plan gives once the fetch `id` is answered with `answer`
    /// (none where sending failed) and the fetches after it, one after the
    /// other, with `rest`: the requests sent after it, in order, and the
    /// results with the answers left, or none where running fails.
    pub closed spec fn outcome(&self, id: int, answer: Option<JsonV>, rest: Seq<Option<JsonV>>) -> Trace {
        answered_spec(self.pending@[id]->0, store(self.scopes@), self.services@, answer, rest)
    }

    /// The name of the operation that the request being answered asked for;
    /// every request sent to a service carries it.
    pub closed spec fn request_name(&self) -> Option<String> {
        self.operation_name
    }

    /// The service list used to find the services.
    pub closed spec fn service_list(&self) -> ServiceList {
        *self.services
    }

    /// The requests asked for wait for their answers, in the order in which
    /// they were asked for.
    pub open spec fn actions_ok(&self, actions: Seq<FetchAction>) -> bool {
        &&& forall|k: int| 0 <= k < actions.len() ==> self.waiting(#[trigger] actions[k].id as int)
        &&& forall|k: int| 0 <= k < actions.len() ==> (#[trigger] actions[k]).request.operation_name == self.request_name()
        &&& forall|k: int| 0 <= k < actions.len() ==> get_key(self.service_list()@, (#[trigger] actions[k]).service@) == Some(actions[k].url@)
        &&& forall|k: int| 0 <= k < actions.len() ==> {
            &&& within(self.plan_node(), PlanNode::Fetch((#[trigger] actions[k]).fetch@))
            &&& actions[k].service@ == actions[k].fetch@.service_name@
            &&& actions[k].request.query@ == actions[k].fetch@.operation@
            &&& fetch_request(actions[k].fetch@, actions[k].source@, self.service_list()@) == Some(sent_of(actions[k]))
            &&& self.wants_entities(actions[k].id as int) == actions[k].fetch@.requires is Some
            &&& (actions[k].fetch@.requires matches Some(req) ==>
                representations_spec(actions[k].source@, req@) matches Some((_, ix)) && self.entity_indices(actions[k].id as int) == ix)
        }
        &&& forall|k1: int, k2: int|
            0 <= k1 < k2 < actions.len() ==> (#[trigger] actions[k1]).id < (#[trigger] actions[k2]).id
    }

    /// Running a node leaves the rest alone: what exists stays, and no
    /// parallel node or waiting fetch that existed is touched.
    spec fn extends(self, other: Self) -> bool {
        &&& self.plan == other.plan
        &&& self.services == other.services
        &&& self.finished == other.finished
        &&& self.operation_name == other.operation_name
        &&& self.scopes@.len() <= other.scopes@.len()
        &&& self.joins@.len() <= other.joins@.len()
        &&& self.pending@.len() <= other.pending@.len()
        &&& forall|j: int| 0 <= j < self.joins@.len() ==> other.joins@[j] == self.joins@[j]
        &&& forall|i: int| 0 <= i < self.pending@.len() ==> other.pending@[i] == self.pending@[i]
    }

    /// Going on after an answer: what exists stays, and no waiting fetch that
    /// existed is touched.
    spec fn continues(self, other: Self) -> bool {
        &&& self.plan == other.plan
        &&& self.services == other.services
        &&& self.operation_name == other.operation_name
        &&& self.scopes@.len() <= other.scopes@.len()
        &&& self.joins@.len() <= other.joins@.len()
        &&& self.pending@.len() <= other.pending@.len()
        &&& forall|i: int| 0 <= i < self.pending@.len() ==> other.pending@[i] == self.pending@[i]
    }

    /// Merges the data of a flatten node back into its parent's data at the
    /// path.
    fn end_flatten(&mut self, parent: usize, inner: usize, path: &Vec<String>) -> (r: Result<(), ExecError>)
        requires
            old(self).inv(),
            parent < old(self).scopes@.len(),
            inner < old(self).scopes@.len(),
        ensures
            final(self).scopes@.len() == old(self).scopes@.len(),
            final(self).plan == old(self).plan,
            final(self).pending == old(self).pending,
            final(self).joins == old(self).joins,
            final(self).services == old(self).services,
            final(self).operation_name == old(self).operation_name,
            final(self).finished == old(self).finished,
            final(self).inv(),
            (r is Ok) == merge_at_path_spec(old(self).scopes@[parent as int]@, old(self).scopes@[inner as int]@, path_view(path@)) is Some,
            r is Ok ==> final(self).scopes@ == old(self).scopes@.update(parent as int, final(self).scopes@[parent as int]),
            r is Ok ==> final(self).scopes@[parent as int]@ == merge_at_path_spec(old(self).scopes@[parent as int]@, old(self).scopes@[inner as int]@, path_view(path@)).unwrap(),
            r matches Err(e) ==> e is Restitch,
    {
        let child = self.scopes[inner].deep_clone();
        let mut p = Json::Null;
        self.scopes.set_and_swap(parent, &mut p);
        let ok = try_merge_flattend_results(&mut p, &child, path);
        self.scopes.set_and_swap(parent, &mut p);
        if ok {
            Ok(())
        } else {
            Err(ExecError::Restitch)
        }
    }

    /// Runs a node on the data `scope` until it completes or waits for a
    /// fetch. `cont` is what is left to do once the node has completed: it
    /// is handed back when the node completes at once, else it is kept by
    /// the waiting fetch or parallel node that goes on with it.
    fn run(&mut self, node: &'a PlanNode, scope: usize, cont: Vec<Frame<'a>>, actions: &mut Vec<FetchAction>) -> (r: Result<Option<Vec<Frame<'a>>>, ExecError>)
        requires
            old(self).inv(),
            scope < old(self).scopes@.len(),
            frames_ok(cont@, old(self).scopes@.len() as nat, old(self).joins@.len() as nat),
            old(self).actions_ok(old(actions)@),
            shape(*old(self)),
            join_at_bottom(cont@),
            within(old(self).plan@, *node),
            frames_within(cont@, old(self).plan@),
        ensures
            run_post(*old(self), *final(self), *node, scope, cont@, old(actions)@, final(actions)@, r),
        decreases node, 1nat,
    {
        match node {
            PlanNode::Fetch(f) => self.run_fetch(node, f, scope, cont, actions),
            PlanNode::Sequence { nodes } => self.run_sequence(node, nodes, scope, cont, actions),
            PlanNode::Parallel { nodes } => self.run_parallel(node, nodes, scope, cont, actions),
            PlanNode::Flatten(fl) => self.run_flatten(node, fl, scope, cont, actions),
        }
    }

    /// Runs a fetch: asks for its request, and keeps the branch waiting.
    #[verifier::loop_isolation(false)]
    fn run_fetch(&mut self, node: &'a PlanNode, f: &'a FetchNode, scope: usize, cont: Vec<Frame<'a>>, actions: &mut Vec<FetchAction>) -> (r: Result<Option<Vec<Frame<'a>>>, ExecError>)
        requires
            old(self).inv(),
            scope < old(self).scopes@.len(),
            frames_ok(cont@, old(self).scopes@.len() as nat, old(self).joins@.len() as nat),
            old(self).actions_ok(old(actions)@),
            shape(*old(self)),
            join_at_bottom(cont@),
            within(old(self).plan@, *node),
            frames_within(cont@, old(self).plan@),
            *node == PlanNode::Fetch(*f),
        ensures
            run_post(*old(self), *final(self), *node, scope, cont@, old(actions)@, final(actions)@, r),
        decreases node, 0nat,
    {
        let ghost s0 = *self;
        let ghost st0 = store(self.scopes@);
        let ghost svc = self.services@;
        assert(st0[scope as int] == self.scopes@[scope as int]@);
        proof {
            lemma_known_within(self.plan@, *node, svc);
        }
        let url = match self.services.url_of(&f.service_name) {
            None => {
                proof {
                    assert(false);
                }
                return Err(ExecError::Selection);
            },
            Some(u) => u,
        };
        let (variables, reps) = match fetch_variables(&self.scopes[scope], &f.requires) {
            None => {
                assert forall|ans: Seq<Option<JsonV>>| #[trigger] run_spec(*node, st0[scope as int], svc, ans) == quiet(None) by {
                    assert(run_spec(*node, st0[scope as int], svc, ans) == fetch_spec(*f, st0[scope as int], svc, ans));
                }
                return Err(ExecError::Selection);
            },
            Some(p) => p,
        };
        let ghost ix = indices_view(reps@);
        let ghost sent = SentV {
            url: url@,
            query: f.operation@,
            variables: JsonV::Object(fields_view(variables@)),
        };
        proof {
            if f.requires is None {
                assert(ix =~= Seq::<int>::empty());
                assert(fields_view(variables@) =~= Seq::<(Seq<char>, JsonV)>::empty());
            }
            assert(forall|ans: Seq<Option<JsonV>>| #[trigger] fetch_spec(*f, st0[scope as int], svc, ans).sent == seq![sent]);
        }
        let id = self.pending.len();
        let ghost before = self.pending@;
        self.pending.push(Some(Pending { stack: cont, scope, has_requires: f.requires.is_some(), reps_to_entity: reps }));
        proof {
            assert forall|i: int| 0 <= i < self.pending@.len() && (#[trigger] self.pending@[i]) is Some implies {
                &&& self.pending@[i]->0.scope < self.scopes@.len()
                &&& frames_ok(self.pending@[i]->0.stack@, self.scopes@.len() as nat, self.joins@.len() as nat)
            } by {
                if i < before.len() {
                    assert(self.pending@[i] == before[i]);
                }
            }
        }
        proof {
            let x = self.pending@[id as int];
            assert(self.pending@ == before.push(x));
            assert forall|j: int| 0 <= j < s0.joins@.len() implies #[trigger] deficit(*self, j)
                == deficit(s0, j) - if owner(cont@) == Some(j) { 1int } else { 0int } by {
                lemma_pcount_push(before, x, Some(j));
            }
            lemma_pcount_push(before, x, None);
            assert forall|i: int| 0 <= i < self.pending@.len() && (#[trigger] self.pending@[i]) is Some implies join_at_bottom(self.pending@[i]->0.stack@) by {
                if i < before.len() {
                    assert(self.pending@[i] == before[i]);
                }
            }
        }
        let request = build_request(f.operation.clone(), copy_name(&self.operation_name), variables);
        let ghost acts = actions@;
        proof {
            assert(fetch_request(*f, st0[scope as int], svc) == Some(sent));
        }
        actions.push(FetchAction { id, fetch: Ghost(*f), source: Ghost(st0[scope as int]), service: f.service_name.clone(), url, request });
        proof {
            let pv = PendV { stack: stack_v(cont@), scope: scope as int, has_requires: f.requires is Some, reps: ix };
            assert(pend_v(self.pending@[id as int]) == Some(pv));
            assert(abs(*self).pending =~= abs(s0).pending.push(Some(pv))) by {
                assert forall|k: int| 0 <= k < before.len() implies self.pending@[k] == before[k] by {}
            }
            assert(abs(*self).store =~= abs(s0).store);
            assert(abs(*self).joins =~= abs(s0).joins);
            assert(abs(*self) =~~= set_pending(abs(s0), abs(s0).pending.push(Some(pv))));
            assert(acts_v(actions@) =~= acts_v(acts).push(ActV { id: id as int, fetch: *f, source: st0[scope as int] }));
        }
        assert(actions@.take(acts.len() as int) =~= acts);
        proof {
            let pp = self.pending@[id as int]->0;
            assert(store(self.scopes@) == st0);
            assert(st0.update(scope as int, st0[scope as int]) =~= st0);
            assert(sent_of(actions@.last()) == sent);
            assert forall|ans: Seq<Option<JsonV>>|
                then_rest(#[trigger] run_spec(*node, st0[scope as int], svc, ans), cont@, st0, scope as int, svc)
                == cons(sent, answered_spec(pp, st0, svc, next_answer(ans), later_answers(ans))) by {
                let t = fetch_spec(*f, st0[scope as int], svc, ans);
                assert(run_spec(*node, st0[scope as int], svc, ans) == t);
                assert(t.sent == seq![sent]);
                let a = answered_spec(pp, st0, svc, next_answer(ans), later_answers(ans));
                match t.out {
                    None => {
                        assert(a == quiet(None));
                        assert(then_rest(t, cont@, st0, scope as int, svc) =~= cons(sent, a));
                    },
                    Some((v, r)) => {
                        assert(then_rest(t, cont@, st0, scope as int, svc) =~= cons(sent, a));
                    },
                }
            }
        }
        Ok(None)
    }

    /// Runs the nodes of a sequence one after the other.
    #[verifier::loop_isolation(false)]
    #[verifier::rlimit(60)]
    fn run_sequence(&mut self, node: &'a PlanNode, nodes: &'a Vec<PlanNode>, scope: usize, cont: Vec<Frame<'a>>, actions: &mut Vec<FetchAction>) -> (r: Result<Option<Vec<Frame<'a>>>, ExecError>)
        requires
            old(self).inv(),
            scope < old(self).scopes@.len(),
            frames_ok(cont@, old(self).scopes@.len() as nat, old(self).joins@.len() as nat),
            old(self).actions_ok(old(actions)@),
            shape(*old(self)),
            join_at_bottom(cont@),
            within(old(self).plan@, *node),
            frames_within(cont@, old(self).plan@),
            *node == (PlanNode::Sequence { nodes: *nodes }),
        ensures
            run_post(*old(self), *final(self), *node, scope, cont@, old(actions)@, final(actions)@, r),
        decreases node, 0nat,
    {

        let ghost s0 = *self;
        let ghost a0 = actions@;
        let ghost pf = parallel_free(*node);
        let ghost svc = self.services@;
        let ghost st0 = store(s0.scopes@);
        let mut stack = cont;
        let mut i: usize = 0;
        while i < nodes.len()
            invariant
                i <= nodes.len(),
                self.inv(),
                s0.extends(*self),
                scope < self.scopes@.len(),
                stack@ == cont@,
                frames_ok(stack@, self.scopes@.len() as nat, self.joins@.len() as nat),
                self.actions_ok(actions@),
                actions@ == a0,
                forall|j: int| s0.joins@.len() <= j < self.joins@.len()
                    ==> (#[trigger] self.joins@[j]).stack@.len() == 0,
                shape(*self),
                accounts(s0, *self, owner(cont@), false),
                pf ==> all_parallel_free(nodes@, i as nat),
                pf ==> store(self.scopes@).take(st0.len() as int) == st0.update(scope as int, store(self.scopes@)[scope as int]),
                pf ==> forall|ans: Seq<Option<JsonV>>|
                    #[trigger] run_seq_spec(nodes@, 0, st0[scope as int], svc, ans)
                    == run_seq_spec(nodes@, i as nat, store(self.scopes@)[scope as int], svc, ans),
                self.services@ == svc,
                run_machine(abs(s0), *node, scope as int, stack_v(cont@), acts_v(a0), svc)
                    == run_seq_machine(abs(*self), nodes@, i as nat, scope as int, stack_v(cont@), acts_v(actions@), svc),
            decreases nodes.len() - i,
        {
            let ghost before = *self;
            let ghost sti = store(before.scopes@);
            let ghost st = stack@;
            let frame = Frame::SeqRest { nodes, next: i + 1, scope };
            let ghost fr = frame;
            stack.push(frame);
            proof {
                assert forall|k: int| 0 <= k < stack@.len() implies frame_ok(#[trigger] stack@[k], self.scopes@.len() as nat, self.joins@.len() as nat) by {
                    if k < st.len() {
                        assert(stack@[k] == st[k]);
                    }
                }
                assert forall|k: int| 0 < k < stack@.len() implies !(#[trigger] stack@[k] is Join) by {
                    if k < st.len() {
                        assert(stack@[k] == st[k]);
                    }
                }
                if st.len() > 0 {
                    assert(stack@[0] == st[0]);
                }
                assert(owner(stack@) == owner(cont@));
                if owner(cont@) is Some {
                    assert(frame_ok(cont@[0], s0.scopes@.len() as nat, s0.joins@.len() as nat));
                }
                assert(decreases_to!(*node => *nodes));
                assert(decreases_to!(*nodes => nodes@));
                assert(decreases_to!(nodes@ => nodes@[i as int]));
                lemma_within_child(s0.plan@, *node, i as int);
                assert forall|k: int| 0 <= k < stack@.len() implies match #[trigger] stack@[k] {
                    Frame::SeqRest { nodes, next, scope } => within(s0.plan@, PlanNode::Sequence { nodes: *nodes }),
                    _ => true,
                } by {
                    if k < st.len() {
                        assert(stack@[k] == st[k]);
                    }
                }
                if pf {
                    assert(parallel_free(nodes@[i as int]));
                    assert(all_parallel_free(nodes@, (i + 1) as nat));
                    if linear(cont@) {
                        assert forall|k: int| 0 <= k < stack@.len() implies match #[trigger] stack@[k] {
                            Frame::SeqRest { nodes, next, scope } => all_parallel_free(nodes@, next as nat),
                            Frame::EndFlatten { .. } => true,
                            Frame::Join(_) => false,
                        } by {
                            if k < st.len() {
                                assert(stack@[k] == st[k]);
                            }
                        }
                    }
                }
                assert(stack@.drop_last() =~= cont@);
                assert(stack@.last() == fr);
            }
            let ghost pushed = stack@;
            proof {
                lemma_stack_v_push(st, fr);
            }
            match self.run(&nodes[i], scope, stack, actions) {
                Err(e) => {
                    proof {
                        if pf {
                            assert forall|ans: Seq<Option<JsonV>>| #[trigger] run_spec(*node, st0[scope as int], svc, ans) == quiet(None) by {
                                assert(run_spec(nodes@[i as int], sti[scope as int], svc, ans) == quiet(None));
                                assert(run_seq_spec(nodes@, 0, st0[scope as int], svc, ans) == run_seq_spec(nodes@, i as nat, sti[scope as int], svc, ans));
                            }
                        }
                    }
                    return Err(e);
                },
                Ok(None) => {
                    assert(actions@.take(a0.len() as int) =~= a0);
                    proof {
                        lemma_accounts_trans(s0, before, *self, owner(cont@), true);
                        if pf {
                            let ghost pp = self.pending@[actions@.last().id as int]->0;
                            let ghost extra = sti.skip(st0.len() as int);
                            let ghost x = sent_of(actions@.last());
                            assert forall|ans: Seq<Option<JsonV>>|
                                then_rest(#[trigger] run_spec(*node, st0[scope as int], svc, ans), cont@, st0, scope as int, svc)
                                == cons(x, answered_spec(pp, store(self.scopes@), svc, next_answer(ans), later_answers(ans))) by {
                                assert(run_seq_spec(nodes@, 0, st0[scope as int], svc, ans) == run_seq_spec(nodes@, i as nat, sti[scope as int], svc, ans));
                                let ghost res = run_spec(nodes@[i as int], sti[scope as int], svc, ans);
                                assert(then_rest(res, pushed, sti, scope as int, svc)
                                    == cons(x, answered_spec(pp, store(self.scopes@), svc, next_answer(ans), later_answers(ans))));
                                match res.out {
                                    None => {},
                                    Some((v, r)) => {
                                        let ghost u = run_seq_spec(nodes@, (i + 1) as nat, v, svc, r);
                                        assert(sti.update(scope as int, v)[scope as int] == v);
                                        match u.out {
                                            None => {
                                                assert(then_rest(res, pushed, sti, scope as int, svc) =~= and_then(res, u));
                                            },
                                            Some((w, r2)) => {
                                                lemma_store_split(sti, st0, scope as int, w);
                                                assert(sti.update(scope as int, v).update(scope as int, w) =~= sti.update(scope as int, w));
                                                lemma_rest_extend(cont@, st0.update(scope as int, w), extra, svc, r2, s0.joins@.len() as nat);
                                                let ghost k = rest_spec(cont@, st0.update(scope as int, w), svc, r2);
                                                assert(rest_spec(pushed, sti.update(scope as int, v), svc, r) =~= and_then(u, k));
                                                assert(then_rest(res, pushed, sti, scope as int, svc) =~= Trace { sent: res.sent + u.sent + k.sent, out: k.out });
                                            },
                                        }
                                    },
                                }
                            }
                        }
                    }
                    return Ok(None);
                },
                Ok(Some(c)) => {
                    stack = c;
                    stack.pop();
                    assert(stack@ =~= st);
                    proof {
                        lemma_accounts_trans(s0, before, *self, owner(cont@), false);
                        lemma_frames_grow(stack@, before.scopes@.len() as nat, before.joins@.len() as nat, self.scopes@.len() as nat, self.joins@.len() as nat);
                        if pf {
                            let ghost stn = store(self.scopes@);
                            assert(stn.take(st0.len() as int) =~= st0.update(scope as int, stn[scope as int])) by {
                                assert(stn.take(sti.len() as int) == sti.update(scope as int, stn[scope as int]));
                                assert forall|k: int| 0 <= k < st0.len() implies stn.take(st0.len() as int)[k] == st0.update(scope as int, stn[scope as int])[k] by {
                                    assert(stn.take(st0.len() as int)[k] == stn.take(sti.len() as int)[k]);
                                    assert(sti.take(st0.len() as int)[k] == sti[k]);
                                }
                            }
                            assert forall|ans: Seq<Option<JsonV>>|
                                #[trigger] run_seq_spec(nodes@, 0, st0[scope as int], svc, ans)
                                == run_seq_spec(nodes@, (i + 1) as nat, stn[scope as int], svc, ans) by {
                                assert(run_seq_spec(nodes@, 0, st0[scope as int], svc, ans) == run_seq_spec(nodes@, i as nat, sti[scope as int], svc, ans));
                                assert(run_spec(nodes@[i as int], sti[scope as int], svc, ans) == quiet(Some((stn[scope as int], ans))));
                                let ghost u = run_seq_spec(nodes@, (i + 1) as nat, stn[scope as int], svc, ans);
                                assert(run_seq_spec(nodes@, i as nat, sti[scope as int], svc, ans) =~= u);
                            }
                        }
                    }
                },
            }
            i += 1;
        }
        assert(actions@.take(a0.len() as int) =~= a0);
        proof {
            if pf {
                assert forall|ans: Seq<Option<JsonV>>|
                    #[trigger] run_spec(*node, st0[scope as int], svc, ans)
                    == quiet(Some((store(self.scopes@)[scope as int], ans))) by {
                    assert(run_seq_spec(nodes@, 0, st0[scope as int], svc, ans) == run_seq_spec(nodes@, i as nat, store(self.scopes@)[scope as int], svc, ans));
                }
            }
        }
        Ok(Some(stack))
    }

    /// Starts every branch of a parallel node.
    #[verifier::loop_isolation(false)]
    #[verifier::rlimit(80)]
    fn run_parallel(&mut self, node: &'a PlanNode, nodes: &'a Vec<PlanNode>, scope: usize, cont: Vec<Frame<'a>>, actions: &mut Vec<FetchAction>) -> (r: Result<Option<Vec<Frame<'a>>>, ExecError>)
        requires
            old(self).inv(),
            scope < old(self).scopes@.len(),
            frames_ok(cont@, old(self).scopes@.len() as nat, old(self).joins@.len() as nat),
            old(self).actions_ok(old(actions)@),
            shape(*old(self)),
            join_at_bottom(cont@),
            within(old(self).plan@, *node),
            frames_within(cont@, old(self).plan@),
            *node == (PlanNode::Parallel { nodes: *nodes }),
        ensures
            run_post(*old(self), *final(self), *node, scope, cont@, old(actions)@, final(actions)@, r),
        decreases node, 0nat,
    {

        let ghost s0 = *self;
        let ghost a0 = actions@;
        let j = self.joins.len();
        let ghost k = cont@;
        self.joins.push(JoinState { remaining: nodes.len(), stack: cont });
        proof {
            lemma_pending_grow(self.pending@, s0.scopes@.len() as nat, s0.joins@.len() as nat, self.scopes@.len() as nat, self.joins@.len() as nat);
            assert forall|jj: int| 0 <= jj < self.joins@.len() implies frames_ok((#[trigger] self.joins@[jj]).stack@, self.scopes@.len() as nat, self.joins@.len() as nat) by {
                if jj < s0.joins@.len() {
                    assert(self.joins@[jj] == s0.joins@[jj]);
                    lemma_frames_grow(s0.joins@[jj].stack@, s0.scopes@.len() as nat, s0.joins@.len() as nat, self.scopes@.len() as nat, self.joins@.len() as nat);
                } else {
                    lemma_frames_grow(k, s0.scopes@.len() as nat, s0.joins@.len() as nat, self.scopes@.len() as nat, self.joins@.len() as nat);
                }
            }
            let x = self.joins@[j as int];
            assert(self.joins@ == s0.joins@.push(x));
            if owner(k) is Some {
                assert(frame_ok(k[0], s0.scopes@.len() as nat, s0.joins@.len() as nat));
            }
            lemma_no_holders(s0);
            lemma_jcount_push(s0.joins@, x, Some(j as int));
            assert forall|jj: int| 0 <= jj < j implies #[trigger] deficit(*self, jj)
                == deficit(s0, jj) - if self.joins@[j as int].remaining > 0 && owner(k) == Some(jj) { 1int } else { 0int } by {
                lemma_jcount_push(s0.joins@, x, Some(jj));
                assert(self.joins@[jj] == s0.joins@[jj]);
            }
            lemma_jcount_push(s0.joins@, x, None);
            assert forall|jj: int| 0 <= jj < self.joins@.len() && (#[trigger] self.joins@[jj]).remaining > 0 && owner(self.joins@[jj].stack@) is Some
                implies owner(self.joins@[jj].stack@)->0 < jj by {
                if jj < j {
                    assert(self.joins@[jj] == s0.joins@[jj]);
                }
            }
            assert forall|jj: int| 0 <= jj < self.joins@.len() implies join_at_bottom((#[trigger] self.joins@[jj]).stack@) by {
                if jj < j {
                    assert(self.joins@[jj] == s0.joins@[jj]);
                }
            }
            assert forall|jj: int| 0 <= jj < self.joins@.len() implies frames_within((#[trigger] self.joins@[jj]).stack@, self.plan@) by {
                if jj < j {
                    assert(self.joins@[jj] == s0.joins@[jj]);
                }
            }
        }
        let ghost allf = all_fetches(nodes@);
        let ghost m1 = abs(*self);
        proof {
            assert(abs(*self).joins =~= abs(s0).joins.push(JoinV { remaining: nodes@.len() as int, stack: stack_v(k) }));
            assert(abs(*self) =~~= set_joins(abs(s0), abs(s0).joins.push(JoinV { remaining: nodes@.len() as int, stack: stack_v(k) })));
        }
        let mut i: usize = 0;
        while i < nodes.len()
            invariant
                i <= nodes.len(),
                allf == all_fetches(nodes@),
                *node == (PlanNode::Parallel { nodes: *nodes }),
                j == s0.joins@.len(),
                i == 0 ==> self.scopes == s0.scopes && actions@ == a0,
                self.services@ == s0.services@,
                run_par_machine(m1, nodes@, 0, j as int, scope as int, acts_v(a0), s0.services@)
                    == run_par_machine(abs(*self), nodes@, i as nat, j as int, scope as int, acts_v(actions@), s0.services@),
                allf ==> {
                    &&& self.scopes == s0.scopes
                    &&& actions@.len() == a0.len() + i
                    &&& self.joins@[j as int].remaining == nodes.len()
                    &&& forall|k: int| 0 <= k < i ==> {
                        &&& self.pending@[(#[trigger] actions@[a0.len() + k]).id as int]->0.stack@ == seq![Frame::Join(j)]
                        &&& self.pending@[actions@[a0.len() + k].id as int]->0.scope == scope
                        &&& actions@[a0.len() + k].fetch@ == nodes@[k]->Fetch_0
                        &&& actions@[a0.len() + k].source@ == store(s0.scopes@)[scope as int]
                    }
                },
                self.inv(),
                self.services == s0.services,
                self.operation_name == s0.operation_name,
                self.finished == s0.finished,
                self.plan == s0.plan,
                s0.scopes@.len() <= self.scopes@.len(),
                j < self.joins@.len(),
                s0.pending@.len() <= self.pending@.len(),
                forall|jj: int| 0 <= jj < j ==> self.joins@[jj] == s0.joins@[jj],
                forall|ii: int| 0 <= ii < s0.pending@.len() ==> self.pending@[ii] == s0.pending@[ii],
                scope < self.scopes@.len(),
                self.actions_ok(actions@),
                actions@.len() >= a0.len(),
                actions@.take(a0.len() as int) == a0,
                forall|k: int| a0.len() <= k < actions@.len() ==> (#[trigger] actions@[k]).id >= s0.pending@.len(),
                self.joins@[j as int].stack@ == k,
                actions@.len() == a0.len() ==> forall|jj: int| j < jj < self.joins@.len() ==> (#[trigger] self.joins@[jj]).stack@.len() == 0,
                self.joins@[j as int].remaining >= nodes.len() - i,
                (self.joins@[j as int].remaining == nodes.len() - i) == (actions@.len() == a0.len()),
                shape(*self),
                owner(k) is Some ==> owner(k)->0 < j,
                deficit(*self, j as int) == nodes.len() - i,
                forall|jj: int| 0 <= jj < j ==> #[trigger] deficit(*self, jj)
                    == deficit(s0, jj) - if self.joins@[j as int].remaining > 0 && owner(k) == Some(jj) { 1int } else { 0int },
                forall|jj: int| j < jj < self.joins@.len() ==> #[trigger] deficit(*self, jj) == 0,
                holders(*self, None) == holders(s0, None) + if self.joins@[j as int].remaining > 0 && owner(k) is None { 1nat } else { 0nat },
            decreases nodes.len() - i,
        {
            let ghost before = *self;
            let ghost ab = actions@;
            let mut c: Vec<Frame<'a>> = Vec::new();
            c.push(Frame::Join(j));
            proof {
                assert(owner(c@) == Some(j as int));
                assert(join_at_bottom(c@));
                assert(frame_ok(c@[0], self.scopes@.len() as nat, self.joins@.len() as nat));
                assert((*node)->Parallel_nodes == *nodes);
                lemma_within_child(s0.plan@, *node, i as int);
                assert(decreases_to!(*node => (*node)->Parallel_nodes));
                assert(decreases_to!(*nodes => nodes@));
                assert(decreases_to!(nodes@ => nodes@[i as int]));
            }
            proof {
                assert(stack_v(c@) =~= seq![FrameV::Join(j as int)]);
            }
            let res = self.run(&nodes[i], scope, c, actions);
            proof {
                if allf {
                    assert(nodes@[i as int] is Fetch);
                }
            }
            match res {
                Err(e) => return Err(e),
                Ok(None) => {
                    proof {
                        if allf {
                            assert(actions@.last() == actions@[a0.len() + i]);
                            assert forall|kk: int| 0 <= kk < i + 1 implies {
                                &&& self.pending@[(#[trigger] actions@[a0.len() + kk]).id as int]->0.stack@ == seq![Frame::Join(j)]
                                &&& self.pending@[actions@[a0.len() + kk].id as int]->0.scope == scope
                                &&& actions@[a0.len() + kk].fetch@ == nodes@[kk]->Fetch_0
                                &&& actions@[a0.len() + kk].source@ == store(s0.scopes@)[scope as int]
                            } by {
                                if kk < i {
                                    assert(actions@[a0.len() + kk] == ab[a0.len() + kk]) by {
                                        assert(actions@.take(ab.len() as int)[a0.len() + kk] == actions@[a0.len() + kk]);
                                    }
                                    assert(before.waiting(ab[a0.len() + kk].id as int));
                                    assert(self.pending@[ab[a0.len() + kk].id as int] == before.pending@[ab[a0.len() + kk].id as int]);
                                } else {
                                    assert(c@ == seq![Frame::Join(j)]);
                                }
                            }
                        }
                        assert(self.joins@[j as int] == before.joins@[j as int]);
                        assert forall|jj: int| 0 <= jj < j implies #[trigger] deficit(*self, jj)
                            == deficit(s0, jj) - if self.joins@[j as int].remaining > 0 && owner(k) == Some(jj) { 1int } else { 0int } by {
                            assert(deficit(*self, jj) == deficit(before, jj));
                        }
                        assert forall|jj: int| j < jj < self.joins@.len() implies #[trigger] deficit(*self, jj) == 0 by {
                            if jj < before.joins@.len() {
                                assert(deficit(*self, jj) == deficit(before, jj));
                            }
                        }
                    }
                    assert(actions@.take(a0.len() as int) =~= a0) by {
                        assert(actions@.take(ab.len() as int) == ab);
                        assert forall|k: int| 0 <= k < a0.len() implies actions@[k] == a0[k] by {
                            assert(actions@[k] == actions@.take(ab.len() as int)[k]);
                            assert(ab[k] == ab.take(a0.len() as int)[k]);
                        }
                    }
                },
                Ok(Some(_)) => {
                    let ghost mid = *self;
                    let mut t = JoinState { remaining: 0, stack: Vec::new() };
                    self.joins.set_and_swap(j, &mut t);
                    t.remaining = t.remaining - 1;
                    self.joins.set_and_swap(j, &mut t);
                    proof {
                        assert forall|jj: int| 0 <= jj < self.joins@.len() implies frames_ok((#[trigger] self.joins@[jj]).stack@, self.scopes@.len() as nat, self.joins@.len() as nat) by {
                            if jj != j {
                                assert(self.joins@[jj] == mid.joins@[jj]);
                            }
                        }
                        let y = self.joins@[j as int];
                        assert(self.joins@ == mid.joins@.update(j as int, y));
                        assert(mid.joins@[j as int] == before.joins@[j as int]);
                        assert(deficit(mid, j as int) == deficit(before, j as int));
                        lemma_jcount_update(mid.joins@, j as int, y, Some(j as int));
                        assert forall|jj: int| 0 <= jj < j implies #[trigger] deficit(*self, jj)
                            == deficit(s0, jj) - if self.joins@[j as int].remaining > 0 && owner(k) == Some(jj) { 1int } else { 0int } by {
                            assert(deficit(mid, jj) == deficit(before, jj));
                            lemma_jcount_update(mid.joins@, j as int, y, Some(jj));
                        }
                        assert forall|jj: int| j < jj < self.joins@.len() implies #[trigger] deficit(*self, jj) == 0 by {
                            if jj < before.joins@.len() {
                                assert(deficit(mid, jj) == deficit(before, jj));
                            } else {
                                assert(deficit(mid, jj) == 0);
                            }
                            assert(self.joins@[jj] == mid.joins@[jj]);
                            lemma_jcount_update(mid.joins@, j as int, y, Some(jj));
                        }
                        lemma_jcount_update(mid.joins@, j as int, y, None);
                        assert(abs(*self).joins =~= abs(mid).joins.update(j as int, JoinV { remaining: abs(mid).joins[j as int].remaining - 1, stack: abs(mid).joins[j as int].stack }));
                        assert(abs(*self) =~~= set_joins(abs(mid), abs(mid).joins.update(j as int, JoinV { remaining: abs(mid).joins[j as int].remaining - 1, stack: abs(mid).joins[j as int].stack })));
                        assert forall|jj: int| 0 <= jj < self.joins@.len() && (#[trigger] self.joins@[jj]).remaining > 0 && owner(self.joins@[jj].stack@) is Some
                            implies owner(self.joins@[jj].stack@)->0 < jj by {
                            if jj != j {
                                assert(self.joins@[jj] == mid.joins@[jj]);
                            }
                        }
                        assert forall|jj: int| 0 <= jj < self.joins@.len() implies join_at_bottom((#[trigger] self.joins@[jj]).stack@) by {
                            if jj != j {
                                assert(self.joins@[jj] == mid.joins@[jj]);
                            }
                        }
                    }
                },
            }
            assert forall|k: int| a0.len() <= k < actions@.len() implies (#[trigger] actions@[k]).id >= s0.pending@.len() by {
                if k < ab.len() {
                    assert(actions@[k] == actions@.take(ab.len() as int)[k]);
                }
            }
            i += 1;
        }
        if self.joins[j].remaining == 0 {
            assert(actions@ =~= a0);
            proof {
                if parallel_free(*node) {
                    assert(nodes@.len() == 0);
                    assert(i == 0);
                    assert(store(self.scopes@).take(s0.scopes@.len() as int) =~= store(s0.scopes@).update(scope as int, store(self.scopes@)[scope as int]));
                    assert forall|ans: Seq<Option<JsonV>>|
                        #[trigger] run_spec(*node, store(s0.scopes@)[scope as int], s0.services@, ans)
                        == quiet(Some((store(self.scopes@)[scope as int], ans))) by {}
                }
            }
            let ghost before = *self;
            let mut t = JoinState { remaining: 0, stack: Vec::new() };
            self.joins.set_and_swap(j, &mut t);
            proof {
                assert forall|jj: int| 0 <= jj < self.joins@.len() implies frames_ok((#[trigger] self.joins@[jj]).stack@, self.scopes@.len() as nat, self.joins@.len() as nat) by {
                    if jj != j {
                        assert(self.joins@[jj] == before.joins@[jj]);
                    }
                }
                let y = self.joins@[j as int];
                assert(self.joins@ == before.joins@.update(j as int, y));
                assert(stack_v(y.stack@) =~= Seq::<FrameV>::empty());
                assert(abs(*self).joins =~= abs(before).joins.update(j as int, JoinV { remaining: 0, stack: Seq::empty() }));
                assert(abs(*self) =~~= set_joins(abs(before), abs(before).joins.update(j as int, JoinV { remaining: 0, stack: Seq::empty() })));
                assert forall|o: Option<int>| jcount(self.joins@, o) == jcount(before.joins@, o) by {
                    lemma_jcount_update(before.joins@, j as int, y, o);
                }
                assert forall|jj: int| 0 <= jj < s0.joins@.len() implies #[trigger] deficit(*self, jj)
                    == deficit(s0, jj) - if false && owner(k) == Some(jj) { 1int } else { 0int } by {
                    assert(deficit(before, jj) == deficit(s0, jj));
                    assert(self.joins@[jj] == before.joins@[jj]);
                }
                assert forall|jj: int| s0.joins@.len() <= jj < self.joins@.len() implies #[trigger] deficit(*self, jj) == 0 by {
                    if jj > j {
                        assert(deficit(before, jj) == 0);
                        assert(self.joins@[jj] == before.joins@[jj]);
                    }
                }
                assert forall|jj: int| 0 <= jj < self.joins@.len() && (#[trigger] self.joins@[jj]).remaining > 0 && owner(self.joins@[jj].stack@) is Some
                    implies owner(self.joins@[jj].stack@)->0 < jj by {
                    if jj != j {
                        assert(self.joins@[jj] == before.joins@[jj]);
                    }
                }
                assert forall|jj: int| 0 <= jj < self.joins@.len() implies join_at_bottom((#[trigger] self.joins@[jj]).stack@) by {
                    if jj != j {
                        assert(self.joins@[jj] == before.joins@[jj]);
                    }
                }
            }
            Ok(Some(t.stack))
        } else {
            proof {
                assert forall|jj: int| s0.joins@.len() <= jj < self.joins@.len() implies #[trigger] deficit(*self, jj) == 0 by {
                    if jj > j {
                        assert(deficit(*self, jj) == 0);
                    }
                }
            }
            Ok(None)
        }
    }

    /// Runs the node of a flatten node on the data at its path.
    #[verifier::loop_isolation(false)]
    #[verifier::rlimit(30)]
    fn run_flatten(&mut self, node: &'a PlanNode, fl: &'a FlattenNode, scope: usize, cont: Vec<Frame<'a>>, actions: &mut Vec<FetchAction>) -> (r: Result<Option<Vec<Frame<'a>>>, ExecError>)
        requires
            old(self).inv(),
            scope < old(self).scopes@.len(),
            frames_ok(cont@, old(self).scopes@.len() as nat, old(self).joins@.len() as nat),
            old(self).actions_ok(old(actions)@),
            shape(*old(self)),
            join_at_bottom(cont@),
            within(old(self).plan@, *node),
            frames_within(cont@, old(self).plan@),
            *node == PlanNode::Flatten(*fl),
        ensures
            run_post(*old(self), *final(self), *node, scope, cont@, old(actions)@, final(actions)@, r),
        decreases node, 0nat,
    {
        let ghost s0 = *self;
        let ghost a0 = actions@;
        let ghost st0 = store(s0.scopes@);
        let ghost svc = self.services@;
        let ghost path = path_view(fl.path@);
        let ghost pf = parallel_free(*node);
        let mut p = Json::Null;
        self.scopes.set_and_swap(scope, &mut p);
        let begun = try_begin_flatten(&mut p, &fl.path);
        self.scopes.set_and_swap(scope, &mut p);
        let inner = match begun {
            None => {
                proof {
                    assert(st0[scope as int] == s0.scopes@[scope as int]@);
                }
                return Err(ExecError::Flatten);
            },
            Some(x) => x,
        };
        let inner_scope = self.scopes.len();
        self.scopes.push(inner);
        let ghost left = flatten_spec(st0[scope as int], path).unwrap().0;
        proof {
            assert(st0[scope as int] == s0.scopes@[scope as int]@);
            assert(store(self.scopes@) =~= st0.update(scope as int, left).push(self.scopes@[inner_scope as int]@));
        }
        let ghost s1 = store(self.scopes@);
        proof {
            assert(abs(*self).pending =~= abs(s0).pending);
            assert(abs(*self).joins =~= abs(s0).joins);
            assert(abs(*self) =~~= set_store(abs(s0), abs(s0).store.update(scope as int, left).push(merge_spec(JsonV::Object(Seq::empty()), flatten_spec(st0[scope as int], path).unwrap().1))));
        }
        let mut c = cont;
        let ghost c0 = c@;
        let frame = Frame::EndFlatten { parent: scope, inner: inner_scope, path: &fl.path };
        let ghost fr = frame;
        c.push(frame);
        proof {
            lemma_stack_v_push(c0, fr);
        }
        proof {
            lemma_pending_grow(self.pending@, s0.scopes@.len() as nat, s0.joins@.len() as nat, self.scopes@.len() as nat, self.joins@.len() as nat);
            lemma_joins_grow(self.joins@, s0.scopes@.len() as nat, s0.joins@.len() as nat, self.scopes@.len() as nat, self.joins@.len() as nat);
            lemma_frames_grow(c0, s0.scopes@.len() as nat, s0.joins@.len() as nat, self.scopes@.len() as nat, self.joins@.len() as nat);
            assert forall|k: int| 0 <= k < c@.len() implies frame_ok(#[trigger] c@[k], self.scopes@.len() as nat, self.joins@.len() as nat) by {
                if k < c0.len() {
                    assert(c@[k] == c0[k]);
                }
            }
            assert(decreases_to!(*node => *fl));
            assert(decreases_to!(*fl => *fl.node));
            lemma_within_child(s0.plan@, *node, 0);
            assert forall|k: int| 0 <= k < c@.len() implies match #[trigger] c@[k] {
                Frame::SeqRest { nodes, next, scope } => within(s0.plan@, PlanNode::Sequence { nodes: *nodes }),
                _ => true,
            } by {
                if k < c0.len() {
                    assert(c@[k] == c0[k]);
                }
            }
            assert(c@.drop_last() =~= c0);
            assert(c@.last() == fr);
            assert forall|k: int| 0 < k < c@.len() implies !(#[trigger] c@[k] is Join) by {
                if k < c0.len() {
                    assert(c@[k] == c0[k]);
                }
            }
            if c0.len() > 0 {
                assert(c@[0] == c0[0]);
            }
            assert(owner(c@) == owner(cont@));
            if owner(cont@) is Some {
                assert(frame_ok(cont@[0], s0.scopes@.len() as nat, s0.joins@.len() as nat));
            }
            lemma_accounts_same(s0, *self, owner(cont@));
            if pf && linear(c0) {
                assert forall|k: int| 0 <= k < c@.len() implies match #[trigger] c@[k] {
                    Frame::SeqRest { nodes, next, scope } => all_parallel_free(nodes@, next as nat),
                    Frame::EndFlatten { .. } => true,
                    Frame::Join(_) => false,
                } by {
                    if k < c0.len() {
                        assert(c@[k] == c0[k]);
                    }
                }
            }
        }
        let ghost pushed = c@;
        let ghost before = *self;
        match self.run(&fl.node, inner_scope, c, actions) {
            Err(e) => {
                proof {
                    if pf {
                        assert forall|ans: Seq<Option<JsonV>>| #[trigger] run_spec(*node, st0[scope as int], svc, ans) == quiet(None) by {
                            assert(run_spec(*fl.node, s1[inner_scope as int], svc, ans) == quiet(None));
                        }
                    }
                }
                Err(e)
            },
            Ok(None) => {
                proof {
                    lemma_accounts_trans(s0, before, *self, owner(cont@), true);
                    if pf {
                        let ghost pp = self.pending@[actions@.last().id as int]->0;
                        let ghost sx = sent_of(actions@.last());
                        assert forall|ans: Seq<Option<JsonV>>|
                            then_rest(#[trigger] run_spec(*node, st0[scope as int], svc, ans), cont@, st0, scope as int, svc)
                            == cons(sx, answered_spec(pp, store(self.scopes@), svc, next_answer(ans), later_answers(ans))) by {
                            let ghost res = run_spec(*fl.node, s1[inner_scope as int], svc, ans);
                            assert(then_rest(res, pushed, s1, inner_scope as int, svc)
                                == cons(sx, answered_spec(pp, store(self.scopes@), svc, next_answer(ans), later_answers(ans))));
                            match res.out {
                                None => {},
                                Some((x, r)) => {
                                    let ghost y = s1.update(inner_scope as int, x);
                                    assert(y[scope as int] == left);
                                    assert(y[inner_scope as int] == x);
                                    match merge_at_path_spec(left, x, path) {
                                        None => {
                                            assert(then_rest(res, pushed, s1, inner_scope as int, svc) =~= Trace { sent: res.sent, out: None });
                                        },
                                        Some(w) => {
                                            assert(y.update(scope as int, w) =~= st0.update(scope as int, w) + seq![x]);
                                            lemma_rest_extend(c0, st0.update(scope as int, w), seq![x], svc, r, s0.joins@.len() as nat);
                                        },
                                    }
                                },
                            }
                        }
                    }
                }
                Ok(None)
            },
            Ok(Some(c2)) => {
                let mut c2 = c2;
                c2.pop();
                assert(c2@ =~= c0);
                let ghost s2 = store(self.scopes@);
                let ghost mid = *self;
                proof {
                    lemma_accounts_trans(s0, before, mid, owner(cont@), false);
                }
                proof {
                    if pf {
                        assert(s2[scope as int] == s2.take(s1.len() as int)[scope as int]);
                        assert(s2[scope as int] == left);
                        assert(self.scopes@[scope as int]@ == s2[scope as int]);
                        assert(self.scopes@[inner_scope as int]@ == s2[inner_scope as int]);
                    }
                }
                match self.end_flatten(scope, inner_scope, &fl.path) {
                    Err(e) => {
                        proof {
                            if pf {
                                assert forall|ans: Seq<Option<JsonV>>| #[trigger] run_spec(*node, st0[scope as int], svc, ans) == quiet(None) by {
                                    assert(run_spec(*fl.node, s1[inner_scope as int], svc, ans) == quiet(Some((s2[inner_scope as int], ans))));
                                }
                            }
                        }
                        Err(e)
                    },
                    Ok(()) => {
                        proof {
                            assert(abs(*self).store =~= abs(mid).store.update(scope as int, self.scopes@[scope as int]@));
                            assert(abs(*self).pending =~= abs(mid).pending);
                            assert(abs(*self).joins =~= abs(mid).joins);
                            assert(abs(*self) =~~= set_store(abs(mid), abs(mid).store.update(scope as int, self.scopes@[scope as int]@)));
                            lemma_accounts_same(mid, *self, owner(cont@));
                            lemma_accounts_trans(s0, mid, *self, owner(cont@), false);
                            if pf {
                                let ghost s3 = store(self.scopes@);
                                assert(s3 =~= s2.update(scope as int, s3[scope as int]));
                                assert(s3.take(st0.len() as int) =~= st0.update(scope as int, s3[scope as int])) by {
                                    assert forall|k: int| 0 <= k < st0.len() && k != scope implies s3[k] == st0[k] by {
                                        assert(s2.take(s1.len() as int)[k] == s2[k]);
                                        assert(s1[k] == st0[k]);
                                    }
                                }
                                assert forall|ans: Seq<Option<JsonV>>|
                                    #[trigger] run_spec(*node, st0[scope as int], svc, ans) == quiet(Some((s3[scope as int], ans))) by {
                                    assert(run_spec(*fl.node, s1[inner_scope as int], svc, ans) == quiet(Some((s2[inner_scope as int], ans))));
                                }
                            }
                        }
                        Ok(Some(c2))
                    },
                }
            },
        }
    }

    /// A branch of the parallel node `j` has completed: where it was the last
    /// one running, hands back what is left to do after the parallel node.
    fn join_step(&mut self, j: usize) -> (r: Option<Vec<Frame<'a>>>)
        requires
            old(self).inv(),
            shape(*old(self)),
            j < old(self).joins@.len(),
            !old(self).finished,
            forall|jj: int| 0 <= jj < old(self).joins@.len() ==> #[trigger] deficit(*old(self), jj)
                == if jj == j { 1int } else { 0int },
            holders(*old(self), None) == 1,
        ensures
            final(self).scopes == old(self).scopes,
            final(self).plan == old(self).plan,
            final(self).pending == old(self).pending,
            final(self).services == old(self).services,
            final(self).operation_name == old(self).operation_name,
            final(self).finished == old(self).finished,
            final(self).joins@.len() == old(self).joins@.len(),
            final(self).inv(),
            shape(*final(self)),
            stored(final(self).joins@) + match r { Some(js) => stack_weight(js@), None => 0 } <= stored(old(self).joins@),
            r is None <==> old(self).joins@[j as int].remaining != 1,
            r is None ==> forall|jj: int| 0 <= jj < old(self).joins@.len() ==> {
                &&& (#[trigger] final(self).joins@[jj]).stack == old(self).joins@[jj].stack
                &&& final(self).joins@[jj].remaining == if jj == j { old(self).joins@[jj].remaining - 1 } else { old(self).joins@[jj].remaining as int }
            },
            r matches Some(js) ==> js@ == old(self).joins@[j as int].stack@,
            r is None ==> abs(*final(self)) == set_joins(abs(*old(self)), abs(*old(self)).joins.update(j as int, JoinV {
                remaining: abs(*old(self)).joins[j as int].remaining - 1,
                stack: abs(*old(self)).joins[j as int].stack,
            })),
            r is Some ==> abs(*final(self)) == set_joins(abs(*old(self)), abs(*old(self)).joins.update(j as int, JoinV { remaining: 0, stack: Seq::empty() })),
            r matches Some(js) ==> {
                &&& frames_ok(js@, final(self).scopes@.len() as nat, final(self).joins@.len() as nat)
                &&& frames_within(js@, final(self).plan@)
                &&& join_at_bottom(js@)
                &&& forall|jj: int| 0 <= jj < final(self).joins@.len() ==> #[trigger] deficit(*final(self), jj)
                    == if owner(js@) == Some(jj) { 1int } else { 0int }
                &&& holders(*final(self), None) + (if owner(js@) is None { 1nat } else { 0nat }) == 1
            },
            r is None ==> balanced(*final(self)),
    {
        let ghost a = *self;
        assert(deficit(a, j as int) == 1);
        let rem = self.joins[j].remaining;
        if rem == 1 {
            let mut t = JoinState { remaining: 0, stack: Vec::new() };
            let ghost tj = t;
            self.joins.set_and_swap(j, &mut t);
            proof {
                assert(t == a.joins@[j as int]);
                assert(self.joins@ =~= a.joins@.update(j as int, tj));
                assert(stack_v(tj.stack@) =~= Seq::<FrameV>::empty());
                assert(abs(*self).joins =~= abs(a).joins.update(j as int, JoinV { remaining: 0, stack: Seq::empty() }));
                assert(abs(*self) =~~= set_joins(abs(a), abs(a).joins.update(j as int, JoinV { remaining: 0, stack: Seq::empty() })));
                assert(stack_weight(tj.stack@) == 0);
                lemma_stored_update(a.joins@, j as int, tj);
                lemma_join_change(a, *self, j as int, tj);
                let o = owner(t.stack@);
                assert(o is Some ==> o->0 < j);
                assert forall|jj: int| 0 <= jj < self.joins@.len() implies #[trigger] deficit(*self, jj)
                    == if o == Some(jj) { 1int } else { 0int } by {
                    assert(holders(*self, Some(jj)) == holders(a, Some(jj)) - jone(a.joins@[j as int], Some(jj)) + jone(tj, Some(jj)));
                    assert(jone(tj, Some(jj)) == 0);
                    assert(jone(a.joins@[j as int], Some(jj)) == if o == Some(jj) { 1nat } else { 0nat });
                    assert(deficit(a, jj) == if jj == j { 1int } else { 0int });
                    if jj != j {
                        assert(self.joins@[jj] == a.joins@[jj]);
                    } else {
                        assert(o != Some(jj));
                        assert(holders(a, Some(jj)) == 0);
                    }
                }
                assert(holders(*self, None) == holders(a, None) - jone(a.joins@[j as int], None) + jone(tj, None));
                assert forall|jj: int| 0 <= jj < self.joins@.len() implies frames_ok((#[trigger] self.joins@[jj]).stack@, self.scopes@.len() as nat, self.joins@.len() as nat) by {
                    if jj != j {
                        assert(self.joins@[jj] == a.joins@[jj]);
                    }
                }
                assert forall|jj: int| 0 <= jj < self.joins@.len() && (#[trigger] self.joins@[jj]).remaining > 0 && owner(self.joins@[jj].stack@) is Some
                    implies owner(self.joins@[jj].stack@)->0 < jj by {
                    if jj != j {
                        assert(self.joins@[jj] == a.joins@[jj]);
                    }
                }
                assert forall|jj: int| 0 <= jj < self.joins@.len() implies join_at_bottom((#[trigger] self.joins@[jj]).stack@) by {
                    if jj != j {
                        assert(self.joins@[jj] == a.joins@[jj]);
                    }
                }
            }
            Some(t.stack)
        } else {
            let mut t = JoinState { remaining: 0, stack: Vec::new() };
            self.joins.set_and_swap(j, &mut t);
            t.remaining = rem - 1;
            let ghost y = t;
            self.joins.set_and_swap(j, &mut t);
            proof {
                assert(self.joins@ =~= a.joins@.update(j as int, y));
                assert(y.stack == a.joins@[j as int].stack);
                assert(abs(*self).joins =~= abs(a).joins.update(j as int, JoinV { remaining: abs(a).joins[j as int].remaining - 1, stack: abs(a).joins[j as int].stack }));
                assert(abs(*self) =~~= set_joins(abs(a), abs(a).joins.update(j as int, JoinV { remaining: abs(a).joins[j as int].remaining - 1, stack: abs(a).joins[j as int].stack })));
                lemma_stored_update(a.joins@, j as int, y);
                lemma_join_change(a, *self, j as int, y);
                assert forall|jj: int| 0 <= jj < self.joins@.len() implies #[trigger] deficit(*self, jj) == 0 by {
                    assert(holders(*self, Some(jj)) == holders(a, Some(jj)) - jone(a.joins@[j as int], Some(jj)) + jone(y, Some(jj)));
                    assert(jone(y, Some(jj)) == jone(a.joins@[j as int], Some(jj)));
                    assert(deficit(a, jj) == if jj == j { 1int } else { 0int });
                    if jj != j {
                        assert(self.joins@[jj] == a.joins@[jj]);
                    }
                }
                assert(holders(*self, None) == holders(a, None) - jone(a.joins@[j as int], None) + jone(y, None));
                assert forall|jj: int| 0 <= jj < self.joins@.len() implies frames_ok((#[trigger] self.joins@[jj]).stack@, self.scopes@.len() as nat, self.joins@.len() as nat) by {
                    if jj != j {
                        assert(self.joins@[jj] == a.joins@[jj]);
                    }
                }
                assert forall|jj: int| 0 <= jj < self.joins@.len() && (#[trigger] self.joins@[jj]).remaining > 0 && owner(self.joins@[jj].stack@) is Some
                    implies owner(self.joins@[jj].stack@)->0 < jj by {
                    if jj != j {
                        assert(self.joins@[jj] == a.joins@[jj]);
                    }
                }
                assert forall|jj: int| 0 <= jj < self.joins@.len() implies join_at_bottom((#[trigger] self.joins@[jj]).stack@) by {
                    if jj != j {
                        assert(self.joins@[jj] == a.joins@[jj]);
                    }
                }
            }
            None
        }
    }

    /// Goes on with a sequence whose node before `next` has completed: runs
    /// its next node, or goes on with the rest of the branch where there is
    /// none.
    #[verifier::loop_isolation(false)]
    fn step_seq(
        &mut self,
        nodes: &'a Vec<PlanNode>,
        next: usize,
        scope: usize,
        rest: Vec<Frame<'a>>,
        actions: &mut Vec<FetchAction>,
        Ghost(s0): Ghost<Executor<'a>>,
        Ghost(a0): Ghost<Seq<FetchAction>>,
        Ghost(k0): Ghost<Seq<Frame<'a>>>,
    ) -> (r: Result<Option<Vec<Frame<'a>>>, ExecError>)
        requires
            going(s0, a0, k0, *old(self), rest@.push(Frame::SeqRest { nodes, next, scope }), old(actions)@),
        ensures
            final(self).inv(),
            s0.continues(*final(self)),
            !(r matches Err(ExecError::Entities)),
            r matches Ok(Some(st)) ==> {
                &&& going(s0, a0, k0, *final(self), st@, final(actions)@)
                &&& stack_weight(st@) + stored(final(self).joins@)
                    < stack_weight(rest@.push(Frame::SeqRest { nodes, next, scope })) + stored(old(self).joins@)
            },
            r matches Ok(None) ==> stopped(s0, a0, k0, *final(self), final(actions)@),
            r is Err ==> (linear(k0) ==> forall|ans: Seq<Option<JsonV>>|
                #[trigger] rest_spec(k0, store(s0.scopes@), s0.services@, ans) == quiet(None)),
            step_machine(abs(*old(self)), stack_v(rest@.push(Frame::SeqRest { nodes, next, scope })), acts_v(old(actions)@), old(self).services@)
                == match r {
                    Ok(Some(st)) => StepV::Goes(abs(*final(self)), stack_v(st@), acts_v(final(actions)@)),
                    Ok(None) => StepV::Stopped(abs(*final(self)), acts_v(final(actions)@)),
                    Err(e) => StepV::Failed(e),
                },
    {
        proof {
            lemma_stack_v_push(rest@, Frame::SeqRest { nodes, next, scope });
        }
        let ghost st = rest@.push(Frame::SeqRest { nodes, next, scope });
        let ghost before = *self;
        let ghost sb = store(before.scopes@);
        let ghost svc = s0.services@;
        let ghost lin = linear(k0);
        let mut stack = rest;
        let ghost rest = stack@;
        proof {
            assert(st.drop_last() =~= rest);
            assert(st[st.len() - 1] == (Frame::SeqRest { nodes, next, scope }));
            assert(frame_ok(st[st.len() - 1], self.scopes@.len() as nat, self.joins@.len() as nat));
            lemma_owner_push(rest, Frame::SeqRest { nodes, next, scope });
            lemma_stack_push(rest, Frame::SeqRest { nodes, next, scope });
            assert forall|k: int| 0 <= k < rest.len() implies frame_ok(#[trigger] rest[k], self.scopes@.len() as nat, self.joins@.len() as nat) by {
                assert(rest[k] == st[k]);
            }
            assert(within(s0.plan@, PlanNode::Sequence { nodes: *nodes }));
            if next < nodes@.len() {
                lemma_within_child(s0.plan@, PlanNode::Sequence { nodes: *nodes }, next as int);
            }
            assert forall|k: int| 0 <= k < rest.len() implies match #[trigger] rest[k] {
                Frame::SeqRest { nodes, next, scope } => within(s0.plan@, PlanNode::Sequence { nodes: *nodes }),
                _ => true,
            } by {
                assert(rest[k] == st[k]);
            }
            if lin {
                assert(all_parallel_free(nodes@, next as nat));
                assert forall|k: int| 0 <= k < rest.len() implies match #[trigger] rest[k] {
                    Frame::SeqRest { nodes, next, scope } => all_parallel_free(nodes@, next as nat),
                    Frame::EndFlatten { .. } => true,
                    Frame::Join(_) => false,
                } by {
                    assert(rest[k] == st[k]);
                }
            }
        }
        if next < nodes.len() {
            let pushed_frame = Frame::SeqRest { nodes, next: next + 1, scope };
            let ghost pfr = pushed_frame;
            stack.push(pushed_frame);
            proof {
                lemma_stack_v_push(rest, pfr);
            }
            proof {
                lemma_owner_push(rest, pfr);
                if owner(rest) is Some {
                    assert(frame_ok(rest[0], self.scopes@.len() as nat, self.joins@.len() as nat));
                }
                lemma_stack_push(rest, pfr);
                assert forall|k: int| 0 <= k < stack@.len() implies frame_ok(#[trigger] stack@[k], self.scopes@.len() as nat, self.joins@.len() as nat) by {
                    if k < rest.len() {
                        assert(stack@[k] == rest[k]);
                    }
                }
                assert(stack@.drop_last() =~= rest);
                assert(stack@.last() == pfr);
                if lin {
                    assert(parallel_free(nodes@[next as int]));
                    assert(all_parallel_free(nodes@, (next + 1) as nat));
                    assert forall|k: int| 0 <= k < stack@.len() implies match #[trigger] stack@[k] {
                        Frame::SeqRest { nodes, next, scope } => all_parallel_free(nodes@, next as nat),
                        Frame::EndFlatten { .. } => true,
                        Frame::Join(_) => false,
                    } by {
                        if k < rest.len() {
                            assert(stack@[k] == rest[k]);
                        }
                    }
                }
            }
            let ghost pushed = stack@;
            match self.run(&nodes[next], scope, stack, actions) {
                Err(e) => {
                    proof {
                        if lin {
                            assert forall|ans: Seq<Option<JsonV>>| #[trigger] rest_spec(k0, store(s0.scopes@), svc, ans) == quiet(None) by {
                                assert(rest_spec(k0, store(s0.scopes@), svc, ans) == rest_spec(st, sb, svc, ans));
                                assert(run_spec(nodes@[next as int], sb[scope as int], svc, ans) == quiet(None));
                            }
                        }
                    }
                    Err(e)
                },
                Ok(None) => {
                    proof {
                        assert forall|i: int| 0 <= i < s0.pending@.len() implies self.pending@[i] == s0.pending@[i] by {
                            assert(before.pending@[i] == s0.pending@[i]);
                        }
                        assert forall|jj: int| 0 <= jj < self.joins@.len() implies #[trigger] deficit(*self, jj) == 0 by {
                            if jj < before.joins@.len() {
                                assert(deficit(before, jj) == if owner(rest) == Some(jj) { 1int } else { 0int });
                            }
                        }
                        if lin {
                            let ghost pp = self.pending@[actions@.last().id as int]->0;
                            let ghost x = sent_of(actions@.last());
                            assert forall|ans: Seq<Option<JsonV>>|
                                #[trigger] rest_spec(k0, store(s0.scopes@), svc, ans)
                                == cons(x, answered_spec(pp, store(self.scopes@), svc, next_answer(ans), later_answers(ans))) by {
                                assert(rest_spec(k0, store(s0.scopes@), svc, ans) == rest_spec(st, sb, svc, ans));
                                let ghost res = run_spec(nodes@[next as int], sb[scope as int], svc, ans);
                                assert(then_rest(res, pushed, sb, scope as int, svc)
                                    == cons(x, answered_spec(pp, store(self.scopes@), svc, next_answer(ans), later_answers(ans))));
                                match res.out {
                                    None => {},
                                    Some((v, r)) => {
                                        assert(sb.update(scope as int, v)[scope as int] == v);
                                        let ghost u = run_seq_spec(nodes@, (next + 1) as nat, v, svc, r);
                                        match u.out {
                                            None => {
                                                assert(then_rest(res, pushed, sb, scope as int, svc) =~= and_then(res, u));
                                            },
                                            Some((w, r2)) => {
                                                assert(sb.update(scope as int, v).update(scope as int, w) =~= sb.update(scope as int, w));
                                                let ghost k = rest_spec(rest, sb.update(scope as int, w), svc, r2);
                                                assert(rest_spec(pushed, sb.update(scope as int, v), svc, r) =~= and_then(u, k));
                                                assert(then_rest(res, pushed, sb, scope as int, svc) =~= Trace { sent: res.sent + u.sent + k.sent, out: k.out });
                                            },
                                        }
                                    },
                                }
                            }
                        }
                    }
                    Ok(None)
                },
                Ok(Some(c)) => {
                    proof {
                        assert forall|jj: int| 0 <= jj < self.joins@.len() implies #[trigger] deficit(*self, jj)
                            == if owner(c@) == Some(jj) { 1int } else { 0int } by {
                            if jj < before.joins@.len() {
                                assert(deficit(before, jj) == if owner(rest) == Some(jj) { 1int } else { 0int });
                            }
                        }
                        lemma_stored_extend(before.joins@, self.joins@);
                        lemma_frames_grow(c@, before.scopes@.len() as nat, before.joins@.len() as nat, self.scopes@.len() as nat, self.joins@.len() as nat);
                        assert(actions@ =~= a0);
                        if lin {
                            let ghost sn = store(self.scopes@);
                            assert forall|ans: Seq<Option<JsonV>>|
                                #[trigger] rest_spec(k0, store(s0.scopes@), svc, ans) == rest_spec(c@, sn, svc, ans) by {
                                assert(rest_spec(k0, store(s0.scopes@), svc, ans) == rest_spec(st, sb, svc, ans));
                                assert(run_spec(nodes@[next as int], sb[scope as int], svc, ans) == quiet(Some((sn[scope as int], ans))));
                                let ghost u = run_seq_spec(nodes@, (next + 1) as nat, sn[scope as int], svc, ans);
                                assert(run_seq_spec(nodes@, next as nat, sb[scope as int], svc, ans) =~= u);
                                match u.out {
                                    None => {},
                                    Some((w, r2)) => {
                                        lemma_store_split(sn, sb, scope as int, w);
                                        lemma_rest_extend(rest, sb.update(scope as int, w), sn.skip(sb.len() as int), svc, r2, before.joins@.len() as nat);
                                    },
                                }
                            }
                        }
                    }
                    Ok(Some(c))
                },
            }
        } else {
            proof {
                if lin {
                    assert(sb.update(scope as int, sb[scope as int]) =~= sb);
                    assert forall|ans: Seq<Option<JsonV>>|
                        #[trigger] rest_spec(k0, store(s0.scopes@), svc, ans) == rest_spec(rest, sb, svc, ans) by {
                        assert(rest_spec(k0, store(s0.scopes@), svc, ans) == rest_spec(st, sb, svc, ans));
                        let ghost k = rest_spec(rest, sb, svc, ans);
                        assert(rest_spec(st, sb, svc, ans) =~= and_then(quiet(Some((sb[scope as int], ans))), k));
                        assert(and_then(quiet(Some((sb[scope as int], ans))), k) =~= k);
                    }
                }
            }
            Ok(Some(stack))
        }
    }

    /// Goes on with a flatten node whose node has completed: merges its data
    /// back.
    fn step_end(
        &mut self,
        parent: usize,
        inner: usize,
        path: &'a Vec<String>,
        rest: Vec<Frame<'a>>,
        Ghost(s0): Ghost<Executor<'a>>,
        Ghost(a0): Ghost<Seq<FetchAction>>,
        Ghost(k0): Ghost<Seq<Frame<'a>>>,
    ) -> (r: Result<Vec<Frame<'a>>, ExecError>)
        requires
            going(s0, a0, k0, *old(self), rest@.push(Frame::EndFlatten { parent, inner, path }), a0),
        ensures
            final(self).inv(),
            s0.continues(*final(self)),
            r matches Err(e) ==> e is Restitch,
            r matches Ok(st) ==> {
                &&& going(s0, a0, k0, *final(self), st@, a0)
                &&& stack_weight(st@) + stored(final(self).joins@)
                    < stack_weight(rest@.push(Frame::EndFlatten { parent, inner, path })) + stored(old(self).joins@)
            },
            r is Err ==> (linear(k0) ==> forall|ans: Seq<Option<JsonV>>|
                #[trigger] rest_spec(k0, store(s0.scopes@), s0.services@, ans) == quiet(None)),
            step_machine(abs(*old(self)), stack_v(rest@.push(Frame::EndFlatten { parent, inner, path })), acts_v(a0), old(self).services@)
                == match r {
                    Ok(st) => StepV::Goes(abs(*final(self)), stack_v(st@), acts_v(a0)),
                    Err(e) => StepV::Failed(e),
                },
    {
        proof {
            lemma_stack_v_push(rest@, Frame::EndFlatten { parent, inner, path });
        }
        let ghost st = rest@.push(Frame::EndFlatten { parent, inner, path });
        let ghost before = *self;
        let ghost sb = store(before.scopes@);
        let ghost svc = s0.services@;
        let ghost lin = linear(k0);
        proof {
            assert(st.drop_last() =~= rest@);
            assert(st[st.len() - 1] == (Frame::EndFlatten { parent, inner, path }));
            assert(frame_ok(st[st.len() - 1], self.scopes@.len() as nat, self.joins@.len() as nat));
            lemma_owner_push(rest@, Frame::EndFlatten { parent, inner, path });
            lemma_stack_push(rest@, Frame::EndFlatten { parent, inner, path });
            assert forall|k: int| 0 <= k < rest@.len() implies frame_ok(#[trigger] rest@[k], self.scopes@.len() as nat, self.joins@.len() as nat) by {
                assert(rest@[k] == st[k]);
            }
            if lin {
                assert forall|k: int| 0 <= k < rest@.len() implies match #[trigger] rest@[k] {
                    Frame::SeqRest { nodes, next, scope } => all_parallel_free(nodes@, next as nat),
                    Frame::EndFlatten { .. } => true,
                    Frame::Join(_) => false,
                } by {
                    assert(rest@[k] == st[k]);
                }
            }
            assert(sb[parent as int] == before.scopes@[parent as int]@);
            assert(sb[inner as int] == before.scopes@[inner as int]@);
        }
        match self.end_flatten(parent, inner, path) {
            Err(e) => {
                proof {
                    if lin {
                        assert forall|ans: Seq<Option<JsonV>>| #[trigger] rest_spec(k0, store(s0.scopes@), svc, ans) == quiet(None) by {
                            assert(rest_spec(k0, store(s0.scopes@), svc, ans) == rest_spec(st, sb, svc, ans));
                        }
                    }
                }
                Err(e)
            },
            Ok(()) => {
                proof {
                    assert(abs(*self).store =~= abs(before).store.update(parent as int, self.scopes@[parent as int]@));
                    assert(abs(*self).pending =~= abs(before).pending);
                    assert(abs(*self).joins =~= abs(before).joins);
                    assert(abs(*self) =~~= set_store(abs(before), abs(before).store.update(parent as int, self.scopes@[parent as int]@)));
                    assert forall|jj: int| 0 <= jj < self.joins@.len() implies #[trigger] deficit(*self, jj) == deficit(before, jj) by {}
                    assert(holders(*self, None) == holders(before, None));
                    if lin {
                        assert(store(self.scopes@) =~= sb.update(parent as int, store(self.scopes@)[parent as int]));
                        assert forall|ans: Seq<Option<JsonV>>|
                            #[trigger] rest_spec(k0, store(s0.scopes@), svc, ans) == rest_spec(rest@, store(self.scopes@), svc, ans) by {
                            assert(rest_spec(k0, store(s0.scopes@), svc, ans) == rest_spec(st, sb, svc, ans));
                        }
                    }
                }
                Ok(rest)
            },
        }
    }

    /// Goes on with a branch of the parallel node `j` that has completed.
    fn step_join(
        &mut self,
        j: usize,
        Ghost(s0): Ghost<Executor<'a>>,
        Ghost(a0): Ghost<Seq<FetchAction>>,
        Ghost(k0): Ghost<Seq<Frame<'a>>>,
    ) -> (r: Option<Vec<Frame<'a>>>)
        requires
            going(s0, a0, k0, *old(self), seq![Frame::Join(j)], a0),
        ensures
            final(self).inv(),
            s0.continues(*final(self)),
            r matches Some(st) ==> {
                &&& going(s0, a0, k0, *final(self), st@, a0)
                &&& stack_weight(st@) + stored(final(self).joins@) < stack_weight(seq![Frame::Join(j)]) + stored(old(self).joins@)
            },
            r is None ==> stopped(s0, a0, k0, *final(self), a0),
            step_machine(abs(*old(self)), stack_v(seq![Frame::Join(j)]), acts_v(a0), old(self).services@)
                == match r {
                    Some(st) => StepV::Goes(abs(*final(self)), stack_v(st@), acts_v(a0)),
                    None => StepV::Stopped(abs(*final(self)), acts_v(a0)),
                },
    {
        proof {
            assert(stack_v(seq![Frame::Join(j)]) =~= seq![FrameV::Join(j as int)]);
        }
        let ghost st = seq![Frame::Join(j)];
        proof {
            assert(frame_ok(st[0], self.scopes@.len() as nat, self.joins@.len() as nat));
            assert(owner(st) == Some(j as int));
            assert(st.drop_last().len() == 0);
            assert(stack_weight(st.drop_last()) == 0);
            assert(stack_weight(st) == 1);
            if linear(k0) {
                assert(st[0] is Join);
                assert(false);
            }
        }
        let r = self.join_step(j);
        proof {
            assert(a0.take(a0.len() as int) =~= a0);
        }
        r
    }

    /// Goes on with a branch whose step has completed, until it waits again,
    /// waits for the other branches of a parallel node, or the plan has run
    /// to its end.
    #[verifier::loop_isolation(false)]
    fn resume(&mut self, stack: Vec<Frame<'a>>, actions: &mut Vec<FetchAction>) -> (r: Result<(), ExecError>)
        requires
            going(*old(self), old(actions)@, stack@, *old(self), stack@, old(actions)@),
        ensures
            !(r matches Err(ExecError::Entities)),
            final(self).inv(),
            old(self).continues(*final(self)),
            r is Ok ==> stopped(*old(self), old(actions)@, stack@, *final(self), final(actions)@),
            r is Err ==> (linear(stack@) ==> forall|ans: Seq<Option<JsonV>>|
                #[trigger] rest_spec(stack@, store(old(self).scopes@), old(self).services@, ans) == quiet(None)),
            r is Ok ==> exists|f: nat| #[trigger] resume_machine(abs(*old(self)), stack_v(stack@), acts_v(old(actions)@), old(self).services@, f)
                == Some(RunV { m: abs(*final(self)), acts: acts_v(final(actions)@), r: Ok(None) }),
            r matches Err(e) ==> exists|f: nat| #[trigger] resume_machine(abs(*old(self)), stack_v(stack@), acts_v(old(actions)@), old(self).services@, f)
                matches Some(o) && o.r == Err::<Option<Seq<FrameV>>, ExecError>(e),
    {
        let ghost s0 = *self;
        let ghost a0 = actions@;
        let ghost k0 = stack@;
        let ghost svc = self.services@;
        let ghost mut n: nat = 0;
        let mut stack = stack;
        loop
            invariant
                going(s0, a0, k0, *self, stack@, actions@),
                self.services@ == svc,
                forall|f: nat| #[trigger] resume_machine(abs(*self), stack_v(stack@), acts_v(actions@), svc, f)
                    == resume_machine(abs(s0), stack_v(k0), acts_v(a0), svc, f + n),
            decreases stack_weight(stack@) + stored(self.joins@),
        {
            let ghost st = stack@;
            let ghost cur = *self;
            let ghost ac = actions@;
            proof {
                assert(resume_machine(abs(cur), stack_v(st), acts_v(ac), svc, 1) == resume_machine(abs(s0), stack_v(k0), acts_v(a0), svc, 1 + n));
            }
            match stack.pop() {
                None => {
                    proof {
                        assert(owner(st) is None);
                        assert(st.len() == 0);
                        assert(a0.take(a0.len() as int) =~= a0);
                    }
                    let ghost b = *self;
                    self.finished = true;
                    proof {
                        lemma_same_holds(b, *self);
                        assert(holders(*self, None) == 0);
                        assert forall|j: int| 0 <= j < self.joins@.len() implies #[trigger] deficit(*self, j) == 0 by {
                            assert(deficit(b, j) == 0);
                        }
                        assert(stack_v(st) =~= Seq::<FrameV>::empty());
                        assert(abs(*self) =~~= MachineV { store: abs(cur).store, pending: abs(cur).pending, joins: abs(cur).joins, finished: true });
                        assert(resume_machine(abs(s0), stack_v(k0), acts_v(a0), svc, 1 + n) == Some(RunV { m: abs(*self), acts: acts_v(actions@), r: Ok(None) }));
                    }
                    return Ok(());
                },
                Some(Frame::SeqRest { nodes, next, scope }) => {
                    assert(st =~= stack@.push(Frame::SeqRest { nodes, next, scope }));
                    match self.step_seq(nodes, next, scope, stack, actions, Ghost(s0), Ghost(a0), Ghost(k0)) {
                        Err(e) => {
                            proof {
                                assert(resume_machine(abs(s0), stack_v(k0), acts_v(a0), svc, 1 + n) == Some(RunV { m: abs(cur), acts: acts_v(ac), r: Err::<Option<Seq<FrameV>>, ExecError>(e) }));
                            }
                            return Err(e);
                        },
                        Ok(None) => {
                            proof {
                                assert(resume_machine(abs(s0), stack_v(k0), acts_v(a0), svc, 1 + n) == Some(RunV { m: abs(*self), acts: acts_v(actions@), r: Ok(None) }));
                            }
                            return Ok(());
                        },
                        Ok(Some(st2)) => {
                            stack = st2;
                            proof {
                                assert forall|f: nat| #[trigger] resume_machine(abs(*self), stack_v(stack@), acts_v(actions@), svc, f)
                                    == resume_machine(abs(s0), stack_v(k0), acts_v(a0), svc, f + (n + 1)) by {
                                    assert(resume_machine(abs(cur), stack_v(st), acts_v(ac), svc, f + 1) == resume_machine(abs(*self), stack_v(stack@), acts_v(actions@), svc, f));
                                }
                                n = n + 1;
                            }
                        },
                    }
                },
                Some(Frame::EndFlatten { parent, inner, path }) => {
                    assert(st =~= stack@.push(Frame::EndFlatten { parent, inner, path }));
                    match self.step_end(parent, inner, path, stack, Ghost(s0), Ghost(a0), Ghost(k0)) {
                        Err(e) => {
                            proof {
                                assert(resume_machine(abs(s0), stack_v(k0), acts_v(a0), svc, 1 + n) == Some(RunV { m: abs(cur), acts: acts_v(ac), r: Err::<Option<Seq<FrameV>>, ExecError>(e) }));
                            }
                            return Err(e);
                        },
                        Ok(st2) => {
                            stack = st2;
                            proof {
                                assert forall|f: nat| #[trigger] resume_machine(abs(*self), stack_v(stack@), acts_v(actions@), svc, f)
                                    == resume_machine(abs(s0), stack_v(k0), acts_v(a0), svc, f + (n + 1)) by {
                                    assert(resume_machine(abs(cur), stack_v(st), acts_v(ac), svc, f + 1) == resume_machine(abs(*self), stack_v(stack@), acts_v(actions@), svc, f));
                                }
                                n = n + 1;
                            }
                        },
                    }
                },
                Some(Frame::Join(j)) => {
                    proof {
                        lemma_join_last(st);
                        assert(st =~= seq![Frame::Join(j)]);
                    }
                    match self.step_join(j, Ghost(s0), Ghost(a0), Ghost(k0)) {
                        Some(st2) => {
                            stack = st2;
                            proof {
                                assert forall|f: nat| #[trigger] resume_machine(abs(*self), stack_v(stack@), acts_v(actions@), svc, f)
                                    == resume_machine(abs(s0), stack_v(k0), acts_v(a0), svc, f + (n + 1)) by {
                                    assert(resume_machine(abs(cur), stack_v(st), acts_v(ac), svc, f + 1) == resume_machine(abs(*self), stack_v(stack@), acts_v(actions@), svc, f));
                                }
                                n = n + 1;
                            }
                        },
                        None => {
                            proof {
                                assert(resume_machine(abs(s0), stack_v(k0), acts_v(a0), svc, 1 + n) == Some(RunV { m: abs(*self), acts: acts_v(actions@), r: Ok(None) }));
                            }
                            return Ok(());
                        },
                    }
                },
            }
        }
    }

    /// Starts running a plan for a request: the results start as an empty
    /// object, and the plan's node runs until every branch waits for a fetch
    /// or the plan has run to its end. Also hands back the requests to send.
    /// The plan must have a node, and each of its fetches must name a service
    /// of the list. The state and the requests are those of `start_spec`
    /// (each request with the data it was prepared from); for a parallel node
    /// of fetches, every fetch is asked for at once, on the empty results, each
    /// as a branch of its own.
    pub fn start(plan: &'a QueryPlan, services: &'a ServiceList, request_context: &RequestContext) -> (r: Result<(Executor<'a>, Vec<FetchAction>), ExecError>)
        requires
            plan.node is Some,
            services_known(plan.node->0, services@),
        ensures
            !(r matches Err(ExecError::Entities)),
            r matches Ok((ex, actions)) ==> {
                &&& ex.inv()
                &&& ex.actions_ok(actions@)
                &&& ex.service_list() == *services
                &&& ex.request_name() == request_context.graphql_request.operation_name
                &&& plan.node == Some(ex.plan_node())
                &&& (ex.is_finished() <==> actions@.len() == 0)
                &&& ex.settled()
            },
            r matches Ok((ex, actions)) ==> start_spec(plan.node->0, services@) == (RunV { m: ex.state(), acts: acts_v(actions@), r: Ok(None) }),
            r matches Err(e) ==> start_spec(plan.node->0, services@).r == Err::<Option<Seq<FrameV>>, ExecError>(e),
            (plan.node->0 is Parallel && plan.node->0->Parallel_nodes@.len() > 0 && all_fetches(plan.node->0->Parallel_nodes@)) ==> (r matches Ok((ex, actions)) ==> {
                &&& actions@.len() == plan.node->0->Parallel_nodes@.len()
                &&& !ex.is_finished()
                &&& ex.scope_data() == seq![JsonV::Object(Seq::empty())]
                &&& forall|k: int| 0 <= k < actions@.len() ==> {
                    &&& (#[trigger] actions@[k]).fetch@ == plan.node->0->Parallel_nodes@[k]->Fetch_0
                    &&& actions@[k].source@ == JsonV::Object(Seq::empty())
                    &&& ex.ends_branch(actions@[k].id as int)
                    &&& ex.target_scope(actions@[k].id as int) == 0
                    &&& ex.branch_parallel(actions@[k].id as int) == 0
                    &&& ex.branches_left(actions@[k].id as int) == actions@.len()
                    &&& ex.nothing_after_parallel(actions@[k].id as int)
                }
            }),
            parallel_free(plan.node->0) ==> {
                &&& r is Err ==> forall|ans: Seq<Option<JsonV>>|
                    #[trigger] run_spec(plan.node->0, JsonV::Object(Seq::empty()), services@, ans) == quiet(None)
                &&& r matches Ok((ex, actions)) ==> {
                    ||| {
                        &&& actions@.len() == 0
                        &&& ex.is_finished()
                        &&& forall|ans: Seq<Option<JsonV>>|
                            #[trigger] run_spec(plan.node->0, JsonV::Object(Seq::empty()), services@, ans) == quiet(Some((ex.data(), ans)))
                    }
                    ||| {
                        &&& actions@.len() == 1
                        &&& ex.runs_alone(actions@[0].id as int)
                        &&& forall|ans: Seq<Option<JsonV>>|
                            #[trigger] run_spec(plan.node->0, JsonV::Object(Seq::empty()), services@, ans)
                            == cons(sent_of(actions@[0]), ex.outcome(actions@[0].id as int, next_answer(ans), later_answers(ans)))
                    }
                }
            },
    {
        match &plan.node {
            None => {
                proof {
                    assert(false);
                }
                Err(ExecError::Selection)
            },
            Some(node) => {
                let mut scopes: Vec<Json> = Vec::new();
                scopes.push(Json::empty_object());
                let mut ex = Executor {
                    plan: Ghost(*node),
                    services,
                    operation_name: copy_name(&request_context.graphql_request.operation_name),
                    scopes,
                    pending: Vec::new(),
                    joins: Vec::new(),
                    finished: false,
                };
                let mut actions: Vec<FetchAction> = Vec::new();
                let cont: Vec<Frame<'a>> = Vec::new();
                let ghost e0 = ex;
                proof {
                    assert(store(e0.scopes@)[0] == JsonV::Object(Seq::empty()));
                    assert(store(e0.scopes@) =~= seq![JsonV::Object(Seq::empty())]);
                    assert(abs(e0).pending =~= Seq::<Option<PendV>>::empty());
                    assert(abs(e0).joins =~= Seq::<JoinV>::empty());
                    assert(abs(e0) =~~= crate::machine::initial_machine());
                    assert(stack_v(cont@) =~= Seq::<FrameV>::empty());
                    assert(acts_v(actions@) =~= Seq::<ActV>::empty());
                    assert(linear(cont@));
                    assert(holders(e0, None) == 0);
                }
                match ex.run(node, 0, cont, &mut actions) {
                    Err(e) => Err(e),
                    Ok(None) => {
                        proof {
                            if node is Parallel && node->Parallel_nodes@.len() > 0 && all_fetches(node->Parallel_nodes@) {
                                assert(store(ex.scopes@) =~= seq![JsonV::Object(Seq::empty())]);
                                assert forall|k: int| 0 <= k < actions@.len() implies {
                                    &&& (#[trigger] actions@[k]).fetch@ == node->Parallel_nodes@[k]->Fetch_0
                                    &&& actions@[k].source@ == JsonV::Object(Seq::empty())
                                    &&& ex.ends_branch(actions@[k].id as int)
                                    &&& ex.target_scope(actions@[k].id as int) == 0
                                    &&& ex.branch_parallel(actions@[k].id as int) == 0
                                    &&& ex.branches_left(actions@[k].id as int) == actions@.len()
                                    &&& ex.nothing_after_parallel(actions@[k].id as int)
                                } by {
                                    assert(actions@[k] == actions@[0 + k]);
                                    assert(cont@.len() == 0);
                                }
                            }
                            if parallel_free(*node) {
                                let ghost st0 = store(e0.scopes@);
                                assert forall|ans: Seq<Option<JsonV>>|
                                    #[trigger] run_spec(*node, JsonV::Object(Seq::empty()), services@, ans)
                                    == cons(sent_of(actions@[0]), ex.outcome(actions@[0].id as int, next_answer(ans), later_answers(ans))) by {
                                    assert(actions@.last() == actions@[0]);
                                    let ghost t = run_spec(*node, st0[0], services@, ans);
                                    match t.out {
                                        None => {},
                                        Some((v, r)) => {
                                            assert(st0.update(0, v)[0] == v);
                                            assert(then_rest(t, cont@, st0, 0, services@) =~= t);
                                        },
                                    }
                                }
                            }
                        }
                        Ok((ex, actions))
                    },
                    Ok(Some(_)) => {
                        let ghost b = ex;
                        ex.finished = true;
                        proof {
                            assert(abs(ex) =~~= MachineV { store: abs(b).store, pending: abs(b).pending, joins: abs(b).joins, finished: true });
                            lemma_same_holds(b, ex);
                            assert forall|j: int| 0 <= j < ex.joins@.len() implies #[trigger] deficit(ex, j) == 0 by {
                                assert(deficit(b, j) == 0);
                            }
                        }
                        Ok((ex, actions))
                    },
                }
            },
        }
    }

    /// Hands back the answer to the fetch `id`: the service's data, or none
    /// where sending the request failed, in which case the results stay as
    /// they are. The data is merged into the results the fetch was asked
    /// for, and the branch goes on; hands back the requests to send next.
    /// An answer that does not hold the entities that the fetch asked for is
    /// refused. The state after the call and the requests handed back are
    /// those of `answer_spec`, for every waiting fetch of every plan. Where the
    /// fetch is all that is left of a branch of a parallel node, the answer is
    /// merged and nothing else happens until the last branch completes; that
    /// one goes on with what follows the node.
    #[verifier::rlimit(80)]
    pub fn on_response(&mut self, id: usize, answer: Option<&Json>) -> (r: Result<Vec<FetchAction>, ExecError>)
        requires
            old(self).inv(),
            old(self).settled(),
            old(self).waiting(id as int),
        ensures
            (r matches Err(e) && e is Entities) <==> (answer matches Some(d) && merge_fetch_spec(
                old(self).target(id as int),
                old(self).wants_entities(id as int),
                old(self).entity_indices(id as int),
                d@,
            ) is None),
            final(self).inv(),
            r matches Ok(actions) ==> {
                &&& !final(self).waiting(id as int)
                &&& forall|i: int| i != id && old(self).waiting(i) ==> final(self).waiting(i)
                &&& final(self).actions_ok(actions@)
                &&& forall|k: int| 0 <= k < actions@.len() ==> !old(self).waiting(#[trigger] actions@[k].id as int)
                &&& final(self).service_list() == old(self).service_list()
                &&& final(self).plan_node() == old(self).plan_node()
                &&& final(self).settled()
            },
            old(self).runs_alone(id as int) ==> {
                &&& r is Err ==> forall|rest: Seq<Option<JsonV>>|
                    #[trigger] old(self).outcome(id as int, answer_view(answer), rest) == quiet(None)
                &&& r matches Ok(actions) ==> {
                    ||| {
                        &&& actions@.len() == 0
                        &&& final(self).is_finished()
                        &&& forall|rest: Seq<Option<JsonV>>|
                            #[trigger] old(self).outcome(id as int, answer_view(answer), rest) == quiet(Some((final(self).data(), rest)))
                    }
                    ||| {
                        &&& actions@.len() == 1
                        &&& final(self).runs_alone(actions@[0].id as int)
                        &&& forall|rest: Seq<Option<JsonV>>|
                            #[trigger] old(self).outcome(id as int, answer_view(answer), rest)
                            == cons(sent_of(actions@[0]), final(self).outcome(actions@[0].id as int, next_answer(rest), later_answers(rest)))
                    }
                }
            },
            old(self).ends_branch(id as int) && old(self).siblings_running(id as int) ==> {
                &&& (r is Ok || r matches Err(ExecError::Entities))
                &&& r matches Ok(actions) ==> {
                    &&& actions@.len() == 0
                    &&& !final(self).is_finished()
                    &&& final(self).scope_data() == old(self).answered_data(id as int, answer_view(answer))
                    &&& forall|i: int| i != id && old(self).waiting(i) ==> {
                        &&& #[trigger] final(self).ends_branch(i) == old(self).ends_branch(i)
                        &&& final(self).branch_parallel(i) == old(self).branch_parallel(i)
                        &&& final(self).target_scope(i) == old(self).target_scope(i)
                        &&& final(self).wants_entities(i) == old(self).wants_entities(i)
                        &&& final(self).entity_indices(i) == old(self).entity_indices(i)
                        &&& old(self).ends_branch(i) ==> {
                            &&& final(self).nothing_after_parallel(i) == old(self).nothing_after_parallel(i)
                            &&& final(self).after_parallel_alone(i) == old(self).after_parallel_alone(i)
                            &&& final(self).branches_left(i) == if old(self).branch_parallel(i) == old(self).branch_parallel(id as int) {
                                old(self).branches_left(i) - 1
                            } else {
                                old(self).branches_left(i)
                            }
                        }
                    }
                }
            },
            old(self).ends_branch(id as int) && !old(self).siblings_running(id as int) && old(self).nothing_after_parallel(id as int) ==> {
                &&& (r is Ok || r matches Err(ExecError::Entities))
                &&& r matches Ok(actions) ==> {
                    &&& actions@.len() == 0
                    &&& final(self).is_finished()
                    &&& final(self).data() == old(self).answered_data(id as int, answer_view(answer))[0]
                }
            },
            old(self).ends_branch(id as int) && !old(self).siblings_running(id as int) && old(self).after_parallel_alone(id as int) ==> {
                &&& r is Err ==> forall|rest: Seq<Option<JsonV>>|
                    #[trigger] old(self).parallel_outcome(id as int, answer_view(answer), rest) == quiet(None)
                &&& r matches Ok(actions) ==> {
                    ||| {
                        &&& actions@.len() == 0
                        &&& final(self).is_finished()
                        &&& forall|rest: Seq<Option<JsonV>>|
                            #[trigger] old(self).parallel_outcome(id as int, answer_view(answer), rest) == quiet(Some((final(self).data(), rest)))
                    }
                    ||| {
                        &&& actions@.len() == 1
                        &&& final(self).runs_alone(actions@[0].id as int)
                        &&& forall|rest: Seq<Option<JsonV>>|
                            #[trigger] old(self).parallel_outcome(id as int, answer_view(answer), rest)
                            == cons(sent_of(actions@[0]), final(self).outcome(actions@[0].id as int, next_answer(rest), later_answers(rest)))
                    }
                }
            },
            r matches Ok(actions) ==> exists|f: nat| #[trigger] answer_spec(old(self).state(), id as int, answer_view(answer), old(self).service_list()@, f)
                == Some(RunV { m: final(self).state(), acts: acts_v(actions@), r: Ok(None) }),
            r matches Err(e) ==> exists|f: nat| #[trigger] answer_spec(old(self).state(), id as int, answer_view(answer), old(self).service_list()@, f)
                matches Some(o) && o.r == Err::<Option<Seq<FrameV>>, ExecError>(e),
    {
        let ghost s0 = *self;
        let ghost st0 = store(s0.scopes@);
        proof {
            let p0 = s0.pending@[id as int]->0;
            let o = owner(p0.stack@);
            assert(pone(s0.pending@[id as int], o) == 1);
            lemma_pcount_witness(s0.pending@, o);
            if s0.finished {
                if o is Some {
                    assert(frame_ok(p0.stack@[0], s0.scopes@.len() as nat, s0.joins@.len() as nat));
                    assert(deficit(s0, o->0) == 0);
                    lemma_live_root(s0, o->0);
                }
                assert(false);
            }
        }
        let mut slot: Option<Pending<'a>> = None;
        self.pending.set_and_swap(id, &mut slot);
        proof {
            let p0 = s0.pending@[id as int]->0;
            assert(self.pending@ == s0.pending@.update(id as int, None));
            assert forall|o: Option<int>| #[trigger] holders(*self, o) == holders(s0, o) - pone(s0.pending@[id as int], o) by {
                lemma_pcount_update(s0.pending@, id as int, None, o);
            }
            assert forall|j: int| 0 <= j < self.joins@.len() implies #[trigger] deficit(*self, j)
                == if owner(p0.stack@) == Some(j) { 1int } else { 0int } by {
                assert(holders(*self, Some(j)) == holders(s0, Some(j)) - pone(s0.pending@[id as int], Some(j)));
                assert(deficit(s0, j) == 0);
            }
            assert(holders(*self, None) == holders(s0, None) - pone(s0.pending@[id as int], None));
            assert forall|i: int| 0 <= i < self.pending@.len() && (#[trigger] self.pending@[i]) is Some implies join_at_bottom(self.pending@[i]->0.stack@) by {
                assert(self.pending@[i] == s0.pending@[i]);
            }
        }
        let ghost s_t = *self;
        let ghost pv = abs(s0).pending[id as int]->0;
        let ghost svc = s0.services@;
        proof {
            assert(s0.state() == abs(s0));
            assert(s0.service_list()@ == svc);
            assert(abs(s_t).pending =~= abs(s0).pending.update(id as int, None));
            assert(abs(s_t) =~~= set_pending(abs(s0), abs(s0).pending.update(id as int, None)));
            assert(acts_v(Seq::<FetchAction>::empty()) =~= Seq::<ActV>::empty());
        }
        proof {
            assert forall|i: int| 0 <= i < self.pending@.len() && (#[trigger] self.pending@[i]) is Some implies {
                &&& self.pending@[i]->0.scope < self.scopes@.len()
                &&& frames_ok(self.pending@[i]->0.stack@, self.scopes@.len() as nat, self.joins@.len() as nat)
            } by {
                assert(self.pending@[i] == s0.pending@[i]);
            }
        }
        let p = match slot {
            Some(p) => p,
            None => {
                return Ok(Vec::new());
            },
        };
        match answer {
            None => {},
            Some(d) => {
                let mut t = Json::Null;
                self.scopes.set_and_swap(p.scope, &mut t);
                let ok = try_merge_fetch_result(&mut t, p.has_requires, &p.reps_to_entity, d);
                self.scopes.set_and_swap(p.scope, &mut t);
                if !ok {
                    proof {
                        assert(st0[p.scope as int] == s0.scopes@[p.scope as int]@);
                        assert(answer_spec(abs(s0), id as int, answer_view(answer), svc, 0)
                            == Some(RunV { m: abs(s_t), acts: Seq::empty(), r: Err::<Option<Seq<FrameV>>, ExecError>(ExecError::Entities) }));
                    }
                    return Err(ExecError::Entities);
                }
            },
        }
        let ghost s1 = *self;
        proof {
            assert(abs(s1).pending =~= abs(s_t).pending);
            assert(abs(s1).joins =~= abs(s_t).joins);
            match answer {
                None => {
                    assert(abs(s1).store =~= abs(s_t).store);
                    assert(abs(s1) =~~= abs(s_t));
                },
                Some(d) => {
                    assert(abs(s1).store =~= abs(s_t).store.update(p.scope as int, s1.scopes@[p.scope as int]@));
                    assert(abs(s1) =~~= set_store(abs(s_t), abs(s_t).store.update(p.scope as int, s1.scopes@[p.scope as int]@)));
                },
            }
            assert(forall|f: nat| #[trigger] answer_spec(abs(s0), id as int, answer_view(answer), svc, f)
                == resume_machine(abs(s1), pv.stack, Seq::empty(), svc, f));
            assert(p == s0.pending@[id as int]->0);
            assert(st0[p.scope as int] == s0.scopes@[p.scope as int]@);
            match answer {
                None => {
                    assert(store(s1.scopes@) =~= st0);
                },
                Some(d) => {
                    assert(store(s1.scopes@) =~= st0.update(p.scope as int, s1.scopes@[p.scope as int]@));
                },
            }
            assert forall|rest: Seq<Option<JsonV>>|
                #[trigger] s0.outcome(id as int, answer_view(answer), rest) == rest_spec(p.stack@, store(s1.scopes@), s0.services@, rest) by {}
            assert(Seq::<FetchAction>::empty().take(0) =~= Seq::<FetchAction>::empty());
            lemma_same_holds(s_t, s1);
            let p0 = s0.pending@[id as int]->0;
            assert(p0 == p);
            assert(join_at_bottom(p.stack@));
            assert(frames_ok(p.stack@, s1.scopes@.len() as nat, s1.joins@.len() as nat));
            assert(shape(s1));
            assert(!s1.finished);
            assert forall|j: int| 0 <= j < s1.joins@.len() implies #[trigger] deficit(s1, j)
                == if owner(p.stack@) == Some(j) { 1int } else { 0int } by {
                assert(deficit(s1, j) == deficit(s_t, j));
            }
            assert(s1.continues(s1));
            assert(s1.actions_ok(Seq::<FetchAction>::empty()));
        }
        let ghost k = p.stack@;
        let mut actions: Vec<FetchAction> = Vec::new();
        let single: Option<usize> = if p.stack.len() == 1 {
            match &p.stack[0] {
                Frame::Join(j) => Some(*j),
                _ => None,
            }
        } else {
            None
        };
        proof {
            assert(single is None <==> !s0.ends_branch(id as int));
            assert forall|rest: Seq<Option<JsonV>>|
                #[trigger] s0.parallel_outcome(id as int, answer_view(answer), rest)
                == rest_spec(s0.joins@[s0.branch_parallel(id as int)].stack@, store(s1.scopes@), s0.services@, rest) by {}
        }
        let stack = match single {
            None => p.stack,
            Some(j) => {
                proof {
                    assert(k[0] == Frame::Join(j));
                    assert(owner(k) == Some(j as int));
                    assert(frame_ok(k[0], s1.scopes@.len() as nat, s1.joins@.len() as nat));
                    assert(s0.branch_parallel(id as int) == j);
                }
                match self.join_step(j) {
                    None => {
                        proof {
                            assert forall|i: int| i != id && s0.waiting(i) implies self.waiting(i) by {
                                assert(s1.pending@[i] == s0.pending@[i]);
                            }
                            assert(store(self.scopes@) == store(s1.scopes@));
                            match answer {
                                None => {},
                                Some(d) => {
                                    assert(store(s1.scopes@) =~= st0.update(p.scope as int, s1.scopes@[p.scope as int]@));
                                },
                            }
                            assert(self.actions_ok(actions@));
                            assert forall|i: int| i != id && s0.waiting(i) implies {
                                &&& #[trigger] self.ends_branch(i) == s0.ends_branch(i)
                                &&& self.branch_parallel(i) == s0.branch_parallel(i)
                                &&& self.target_scope(i) == s0.target_scope(i)
                                &&& self.wants_entities(i) == s0.wants_entities(i)
                                &&& self.entity_indices(i) == s0.entity_indices(i)
                                &&& s0.ends_branch(i) ==> {
                                    &&& self.nothing_after_parallel(i) == s0.nothing_after_parallel(i)
                                    &&& self.after_parallel_alone(i) == s0.after_parallel_alone(i)
                                    &&& self.branches_left(i) == if s0.branch_parallel(i) == s0.branch_parallel(id as int) {
                                        s0.branches_left(i) - 1
                                    } else {
                                        s0.branches_left(i)
                                    }
                                }
                            } by {
                                assert(s1.pending@[i] == s0.pending@[i]);
                                assert(self.pending@[i] == s0.pending@[i]);
                                if s0.ends_branch(i) {
                                    let st = s0.pending@[i]->0.stack@;
                                    assert(frames_ok(st, s0.scopes@.len() as nat, s0.joins@.len() as nat));
                                    assert(frame_ok(st[0], s0.scopes@.len() as nat, s0.joins@.len() as nat));
                                    let jj = s0.branch_parallel(i);
                                    assert(0 <= jj < s1.joins@.len());
                                    assert(self.joins@[jj].stack == s1.joins@[jj].stack);
                                }
                            }
                            assert(self.scope_data() == s0.answered_data(id as int, answer_view(answer))) by {
                                assert(store(s0.scopes@)[p.scope as int] == s0.scopes@[p.scope as int]@);
                            }
                            assert(pv.stack =~= seq![FrameV::Join(j as int)]);
                            assert(acts_v(actions@) =~= Seq::<ActV>::empty());
                            assert(answer_spec(abs(s0), id as int, answer_view(answer), svc, 1)
                                == Some(RunV { m: abs(*self), acts: acts_v(actions@), r: Ok(None) }));
                        }
                        return Ok(actions);
                    },
                    Some(js) => {
                        proof {
                            assert(self.continues(*self));
                            assert(self.actions_ok(actions@));
                        }
                        js
                    },
                }
            },
        };
        let ghost s2 = *self;
        let ghost k2 = stack@;
        proof {
            assert(store(s2.scopes@) == store(s1.scopes@));
            assert(single is None ==> k2 == k && s2 == s1);
            assert(single is Some ==> k2 == s0.joins@[s0.branch_parallel(id as int)].stack@);
        }
        proof {
            if single is Some {
                assert(pv.stack =~= seq![FrameV::Join(s0.branch_parallel(id as int))]);
                assert(forall|f: nat| #[trigger] resume_machine(abs(s2), stack_v(k2), Seq::empty(), svc, f)
                    == resume_machine(abs(s1), pv.stack, Seq::empty(), svc, f + 1));
            } else {
                assert(stack_v(k2) == pv.stack);
            }
            assert(acts_v(actions@) =~= Seq::<ActV>::empty());
        }
        match self.resume(stack, &mut actions) {
            Err(e) => {
                proof {
                    let ff = choose|f: nat| #[trigger] resume_machine(abs(s2), stack_v(k2), acts_v(Seq::<FetchAction>::empty()), svc, f)
                        matches Some(o) && o.r == Err::<Option<Seq<FrameV>>, ExecError>(e);
                    if single is Some {
                        assert(resume_machine(abs(s2), stack_v(k2), Seq::empty(), svc, ff) == resume_machine(abs(s1), pv.stack, Seq::empty(), svc, ff + 1));
                        assert(answer_spec(abs(s0), id as int, answer_view(answer), svc, ff + 1) == resume_machine(abs(s2), stack_v(k2), Seq::empty(), svc, ff));
                    } else {
                        assert(answer_spec(abs(s0), id as int, answer_view(answer), svc, ff) == resume_machine(abs(s2), stack_v(k2), Seq::empty(), svc, ff));
                    }
                    if single is Some && k2.len() == 0 {
                        let e = Seq::<Option<JsonV>>::empty();
                        assert(rest_spec(k2, store(s2.scopes@), s0.services@, e) == quiet(Some((store(s2.scopes@)[0], e))));
                    }
                }
                Err(e)
            },
            Ok(()) => {
                proof {
                    let ff = choose|f: nat| #[trigger] resume_machine(abs(s2), stack_v(k2), acts_v(Seq::<FetchAction>::empty()), svc, f)
                        == Some(RunV { m: abs(*self), acts: acts_v(actions@), r: Ok(None) });
                    if single is Some {
                        assert(resume_machine(abs(s2), stack_v(k2), Seq::empty(), svc, ff) == resume_machine(abs(s1), pv.stack, Seq::empty(), svc, ff + 1));
                        assert(answer_spec(abs(s0), id as int, answer_view(answer), svc, ff + 1) == resume_machine(abs(s2), stack_v(k2), Seq::empty(), svc, ff));
                    } else {
                        assert(answer_spec(abs(s0), id as int, answer_view(answer), svc, ff) == resume_machine(abs(s2), stack_v(k2), Seq::empty(), svc, ff));
                    }
                    assert forall|i: int| i != id && s0.waiting(i) implies self.waiting(i) by {
                        assert(s1.pending@[i] == s0.pending@[i]);
                        assert(s2.pending@[i] == s1.pending@[i]);
                    }
                    if actions@.len() == 1 {
                        assert(actions@.last() == actions@[0]);
                    }
                    if single is Some && k2.len() == 0 {
                        let e = Seq::<Option<JsonV>>::empty();
                        assert(rest_spec(k2, store(s2.scopes@), s0.services@, e) == quiet(Some((store(s2.scopes@)[0], e))));
                    }
                }
                Ok(actions)
            },
        }
    }

    /// The results, whether the plan has run to its end, and which fetches
    /// wait, as the machine's state holds them.
    pub proof fn law_state_parts(&self)
        requires
            self.inv(),
        ensures
            self.data() == self.state().store[0],
            self.is_finished() == self.state().finished,
            forall|i: int| #[trigger] self.waiting(i) <==> (0 <= i < self.state().pending.len() && self.state().pending[i] is Some),
    {
    }

    /// A plan has run to its end exactly when no fetch waits for its answer:
    /// it ends only once every branch of every parallel node has completed,
    /// and until it ends some fetch always waits.
    pub proof fn law_done_iff_nothing_waits(&self)
        requires
            self.inv(),
            self.settled(),
        ensures
            self.is_finished() <==> (forall|i: int| !self.waiting(i)),
    {
        let ex = *self;
        if ex.finished {
            assert forall|i: int| !self.waiting(i) by {
                if self.waiting(i) {
                    let o = owner(ex.pending@[i]->0.stack@);
                    assert(pone(ex.pending@[i], o) == 1);
                    lemma_pcount_witness(ex.pending@, o);
                    if o is Some {
                        assert(frame_ok(ex.pending@[i]->0.stack@[0], ex.scopes@.len() as nat, ex.joins@.len() as nat));
                        assert(deficit(ex, o->0) == 0);
                        lemma_live_root(ex, o->0);
                    }
                }
            }
        } else {
            lemma_pcount_witness(ex.pending@, None);
            lemma_jcount_witness(ex.joins@, None);
            if pcount(ex.pending@, None) > 0 {
                let i = choose|i: int| 0 <= i < ex.pending@.len() && #[trigger] pone(ex.pending@[i], None) == 1;
                assert(self.waiting(i));
            } else {
                let j = choose|i: int| 0 <= i < ex.joins@.len() && #[trigger] jone(ex.joins@[i], None) == 1;
                lemma_live_pending(ex, j);
                let i = choose|i: int| 0 <= i < ex.pending@.len() && (#[trigger] ex.pending@[i]) is Some;
                assert(self.waiting(i));
            }
        }
    }

    /// Does the fetch `id` wait for its answer.
    pub fn is_waiting(&self, id: usize) -> (r: bool)
        ensures
            r == self.waiting(id as int),
    {
        id < self.pending.len() && self.pending[id].is_some()
    }

    /// Has the plan run to its end.
    pub fn is_done(&self) -> (r: bool)
        ensures
            r == self.is_finished(),
    {
        self.finished
    }

    /// The results of the plan so far.
    pub fn results(&self) -> (r: &Json)
        requires
            self.inv(),
        ensures
            r@ == self.data(),
    {
        &self.scopes[0]
    }

    /// The response to the request: the results as its data.
    pub fn into_response(self) -> (r: GraphQLResponse)
        requires
            self.inv(),
        ensures
            r.data matches Some(d) && d@ == self.data(),
    {
        let mut scopes = self.scopes;
        let data = scopes.swap_remove(0);
        GraphQLResponse { data: Some(data) }
    }

}

} // verus!
