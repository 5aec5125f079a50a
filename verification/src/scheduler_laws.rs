//! Laws of the scheduler, proved over the model in `scheduler`:
//! conservative creation, per-name emission during sweeps and batches
//! (at-most-once update, down to the prefix of emissions an accepted update
//! may produce), sweep notifications, and idempotence of an empty batch
//! followed by a sweep.

use vstd::prelude::*;

use crate::dependency_state_validator::spec_create_fulfilled;
use crate::dependency_state_validator::spec_delete_fulfilled;
use crate::objects::ExecutionState;
use crate::objects::WorkloadStateView;
use crate::scheduler::PendingEntryView;
use crate::scheduler::SchedulerStep;
use crate::scheduler::empty_step;
use crate::scheduler::entry_workload_name;
use crate::scheduler::lemma_process_entries_wf;
use crate::scheduler::lemma_queue_key_index_props;
use crate::scheduler::process_batch;
use crate::scheduler::process_entries;
use crate::scheduler::queue_insert_spec;
use crate::scheduler::queue_key_index;
use crate::scheduler::queue_wf;
use crate::scheduler::spec_enqueue_filtered;
use crate::scheduler::spec_next;
use crate::scheduler::step_entry;
use crate::scheduler::step_operation;
use crate::workload_operation::WorkloadOperationView;
use crate::workload_operation::op_workload_name;

verus! {

/// Every released `Create` or `Update` has its create gate open.
pub open spec fn ready_ops_create_gated(
    ops: Seq<WorkloadOperationView>,
    store: Map<Seq<char>, ExecutionState>,
) -> bool {
    forall|i: int|
        0 <= i < ops.len() ==> match #[trigger] ops[i] {
            WorkloadOperationView::Create(w) => spec_create_fulfilled(w, store),
            WorkloadOperationView::Update(w, _) => spec_create_fulfilled(w, store),
            WorkloadOperationView::UpdateDeleteOnly(_) => true,
            WorkloadOperationView::Delete(_) => true,
        }
}

proof fn lemma_gated_concat(
    a: Seq<WorkloadOperationView>,
    b: Seq<WorkloadOperationView>,
    store: Map<Seq<char>, ExecutionState>,
)
    requires
        ready_ops_create_gated(a, store),
        ready_ops_create_gated(b, store),
    ensures
        ready_ops_create_gated(a + b, store),
{
    assert forall|i: int| 0 <= i < (a + b).len() implies match #[trigger] (a + b)[i] {
        WorkloadOperationView::Create(w) => spec_create_fulfilled(w, store),
        WorkloadOperationView::Update(w, _) => spec_create_fulfilled(w, store),
        WorkloadOperationView::UpdateDeleteOnly(_) => true,
        WorkloadOperationView::Delete(_) => true,
    } by {
        if i < a.len() {
            assert((a + b)[i] == a[i]);
        } else {
            assert((a + b)[i] == b[i - a.len()]);
        }
    }
}

proof fn lemma_step_operation_gated(
    q: Seq<(Seq<char>, PendingEntryView)>,
    op: WorkloadOperationView,
    store: Map<Seq<char>, ExecutionState>,
    notify: bool,
)
    ensures
        ready_ops_create_gated(step_operation(q, op, store, notify).ready, store),
{
}

proof fn lemma_step_entry_gated(
    q: Seq<(Seq<char>, PendingEntryView)>,
    e: PendingEntryView,
    store: Map<Seq<char>, ExecutionState>,
)
    ensures
        ready_ops_create_gated(step_entry(q, e, store).ready, store),
{
}

proof fn lemma_process_batch_gated(
    q: Seq<(Seq<char>, PendingEntryView)>,
    ops: Seq<WorkloadOperationView>,
    store: Map<Seq<char>, ExecutionState>,
)
    ensures
        ready_ops_create_gated(process_batch(q, ops, store).ready, store),
    decreases ops.len(),
{
    if ops.len() == 0 {
    } else {
        let first = step_operation(q, ops[0], store, true);
        lemma_step_operation_gated(q, ops[0], store, true);
        lemma_process_batch_gated(first.queue, ops.drop_first(), store);
        lemma_gated_concat(
            first.ready,
            process_batch(first.queue, ops.drop_first(), store).ready,
            store,
        );
    }
}

proof fn lemma_process_entries_gated(
    q: Seq<(Seq<char>, PendingEntryView)>,
    entries: Seq<PendingEntryView>,
    store: Map<Seq<char>, ExecutionState>,
)
    ensures
        ready_ops_create_gated(process_entries(q, entries, store).ready, store),
    decreases entries.len(),
{
    if entries.len() == 0 {
    } else {
        let first = step_entry(q, entries[0], store);
        lemma_step_entry_gated(q, entries[0], store);
        lemma_process_entries_gated(first.queue, entries.drop_first(), store);
        lemma_gated_concat(
            first.ready,
            process_entries(first.queue, entries.drop_first(), store).ready,
            store,
        );
    }
}

/// Law (conservative create): the scheduler never releases a `Create` or an
/// `Update` whose new specification's create preconditions are unmet under
/// the store it evaluated; this holds for a batch with its appended sweep and
/// for a plain sweep alike.
pub proof fn lemma_conservative_create(
    q: Seq<(Seq<char>, PendingEntryView)>,
    ops: Seq<WorkloadOperationView>,
    store: Map<Seq<char>, ExecutionState>,
)
    ensures
        ready_ops_create_gated(spec_enqueue_filtered(q, ops, store).ready, store),
        ready_ops_create_gated(spec_next(q, store).ready, store),
{
    lemma_process_batch_gated(q, ops, store);
    let b = process_batch(q, ops, store);
    lemma_process_entries_gated(
        Seq::empty(),
        b.queue.map_values(|p: (Seq<char>, PendingEntryView)| p.1),
        store,
    );
    lemma_gated_concat(b.ready, spec_next(b.queue, store).ready, store);
    lemma_process_entries_gated(
        Seq::empty(),
        q.map_values(|p: (Seq<char>, PendingEntryView)| p.1),
        store,
    );
}

/// A sweep notification is always `WaitingToStart`, for an update whose
/// teardown is being released right now while its create gate is still shut.
pub open spec fn sweep_reports_from_splits(
    reports: Seq<WorkloadStateView>,
    entries: Seq<PendingEntryView>,
    store: Map<Seq<char>, ExecutionState>,
) -> bool {
    forall|i: int|
        0 <= i < reports.len() ==> {
            &&& (#[trigger] reports[i]).execution_state == ExecutionState::WaitingToStart
            &&& exists|j: int|
                0 <= j < entries.len() && match #[trigger] entries[j] {
                    PendingEntryView::UpdateDelete(w, d) => {
                        &&& w.instance_name == reports[i].instance_name
                        &&& spec_delete_fulfilled(d, store)
                        &&& !spec_create_fulfilled(w, store)
                    },
                    _ => false,
                }
        }
}

proof fn lemma_process_entries_reports(
    q: Seq<(Seq<char>, PendingEntryView)>,
    entries: Seq<PendingEntryView>,
    store: Map<Seq<char>, ExecutionState>,
)
    ensures
        sweep_reports_from_splits(process_entries(q, entries, store).reports, entries, store),
    decreases entries.len(),
{
    if entries.len() == 0 {
    } else {
        let first = step_entry(q, entries[0], store);
        let rest = process_entries(first.queue, entries.drop_first(), store);
        lemma_process_entries_reports(first.queue, entries.drop_first(), store);
        let all = first.reports + rest.reports;
        assert forall|i: int| 0 <= i < all.len() implies {
            &&& (#[trigger] all[i]).execution_state == ExecutionState::WaitingToStart
            &&& exists|j: int|
                0 <= j < entries.len() && match #[trigger] entries[j] {
                    PendingEntryView::UpdateDelete(w, d) => {
                        &&& w.instance_name == all[i].instance_name
                        &&& spec_delete_fulfilled(d, store)
                        &&& !spec_create_fulfilled(w, store)
                    },
                    _ => false,
                }
        } by {
            if i < first.reports.len() {
                assert(all[i] == first.reports[i]);
                assert(entries[0] == entries[0]);
            } else {
                let k = i - first.reports.len();
                assert(all[i] == rest.reports[k]);
                let j = choose|j: int|
                    0 <= j < entries.drop_first().len() && match #[trigger] entries.drop_first()[j] {
                        PendingEntryView::UpdateDelete(w, d) => {
                            &&& w.instance_name == rest.reports[k].instance_name
                            &&& spec_delete_fulfilled(d, store)
                            &&& !spec_create_fulfilled(w, store)
                        },
                        _ => false,
                    };
                assert(entries[j + 1] == entries.drop_first()[j]);
            }
        }
    }
}

/// Law (notification at-most-once per pending transition, sweep side): a
/// re-sweep repeats no waiting notification; every notification it produces
/// is `WaitingToStart`, and only because an `UpdateDelete` entry is being
/// split right now: its teardown released, its create re-parked. In
/// particular a sweep never emits `WaitingToStop`.
pub proof fn lemma_sweep_notifications(
    q: Seq<(Seq<char>, PendingEntryView)>,
    store: Map<Seq<char>, ExecutionState>,
)
    ensures
        sweep_reports_from_splits(
            spec_next(q, store).reports,
            q.map_values(|p: (Seq<char>, PendingEntryView)| p.1),
            store,
        ),
        forall|i: int|
            0 <= i < spec_next(q, store).reports.len() ==> (#[trigger] spec_next(
                q,
                store,
            ).reports[i]).execution_state != ExecutionState::WaitingToStop,
{
    lemma_process_entries_reports(
        Seq::empty(),
        q.map_values(|p: (Seq<char>, PendingEntryView)| p.1),
        store,
    );
}

/// A queue entry whose gate is still shut under the given store.
pub open spec fn entry_blocked(e: PendingEntryView, store: Map<Seq<char>, ExecutionState>) -> bool {
    match e {
        PendingEntryView::Create(w) => !spec_create_fulfilled(w, store),
        PendingEntryView::Delete(d) => !spec_delete_fulfilled(d, store),
        PendingEntryView::UpdateCreate(w, _) => !spec_create_fulfilled(w, store),
        PendingEntryView::UpdateDelete(_, d) => !spec_delete_fulfilled(d, store),
    }
}

pub open spec fn queue_stable(
    q: Seq<(Seq<char>, PendingEntryView)>,
    store: Map<Seq<char>, ExecutionState>,
) -> bool {
    forall|i: int| 0 <= i < q.len() ==> entry_blocked((#[trigger] q[i]).1, store)
}

proof fn lemma_insert_stable(
    q: Seq<(Seq<char>, PendingEntryView)>,
    name: Seq<char>,
    e: PendingEntryView,
    store: Map<Seq<char>, ExecutionState>,
)
    requires
        queue_stable(q, store),
        entry_blocked(e, store),
    ensures
        queue_stable(queue_insert_spec(q, name, e), store),
{
    lemma_queue_key_index_props(q, name);
    let q2 = queue_insert_spec(q, name, e);
    assert forall|i: int| 0 <= i < q2.len() implies entry_blocked((#[trigger] q2[i]).1, store) by {
        if queue_key_index(q, name) >= 0 {
            if i != queue_key_index(q, name) {
                assert(q2[i] == q[i]);
            }
        } else {
            if i < q.len() {
                assert(q2[i] == q[i]);
            }
        }
    }
}

proof fn lemma_step_operation_stable(
    q: Seq<(Seq<char>, PendingEntryView)>,
    op: WorkloadOperationView,
    store: Map<Seq<char>, ExecutionState>,
    notify: bool,
)
    requires
        queue_stable(q, store),
    ensures
        queue_stable(step_operation(q, op, store, notify).queue, store),
{
    match op {
        WorkloadOperationView::Create(w) => {
            if !spec_create_fulfilled(w, store) {
                lemma_insert_stable(
                    q,
                    w.instance_name.workload_name,
                    PendingEntryView::Create(w),
                    store,
                );
            }
        },
        WorkloadOperationView::Delete(d) => {
            if !spec_delete_fulfilled(d, store) {
                lemma_insert_stable(
                    q,
                    d.instance_name.workload_name,
                    PendingEntryView::Delete(d),
                    store,
                );
            }
        },
        WorkloadOperationView::Update(w, d) => {
            let cf = spec_create_fulfilled(w, store);
            let df = spec_delete_fulfilled(d, store);
            if cf && df {
            } else if df {
                lemma_insert_stable(
                    q,
                    w.instance_name.workload_name,
                    PendingEntryView::UpdateCreate(w, d),
                    store,
                );
            } else {
                lemma_insert_stable(
                    q,
                    w.instance_name.workload_name,
                    PendingEntryView::UpdateDelete(w, d),
                    store,
                );
            }
        },
        WorkloadOperationView::UpdateDeleteOnly(_) => {},
    }
}

proof fn lemma_step_entry_stable(
    q: Seq<(Seq<char>, PendingEntryView)>,
    e: PendingEntryView,
    store: Map<Seq<char>, ExecutionState>,
)
    requires
        queue_stable(q, store),
    ensures
        queue_stable(step_entry(q, e, store).queue, store),
{
    match e {
        PendingEntryView::Create(w) => lemma_step_operation_stable(
            q,
            WorkloadOperationView::Create(w),
            store,
            false,
        ),
        PendingEntryView::Delete(d) => lemma_step_operation_stable(
            q,
            WorkloadOperationView::Delete(d),
            store,
            false,
        ),
        PendingEntryView::UpdateDelete(w, d) => lemma_step_operation_stable(
            q,
            WorkloadOperationView::Update(w, d),
            store,
            false,
        ),
        PendingEntryView::UpdateCreate(w, d) => {
            if !spec_create_fulfilled(w, store) {
                lemma_insert_stable(
                    q,
                    w.instance_name.workload_name,
                    PendingEntryView::UpdateCreate(w, d),
                    store,
                );
            }
        },
    }
}

proof fn lemma_process_entries_stable(
    q: Seq<(Seq<char>, PendingEntryView)>,
    entries: Seq<PendingEntryView>,
    store: Map<Seq<char>, ExecutionState>,
)
    requires
        queue_stable(q, store),
    ensures
        queue_stable(process_entries(q, entries, store).queue, store),
    decreases entries.len(),
{
    if entries.len() > 0 {
        lemma_step_entry_stable(q, entries[0], store);
        lemma_process_entries_stable(
            step_entry(q, entries[0], store).queue,
            entries.drop_first(),
            store,
        );
    }
}

/// After a sweep, every entry still queued is blocked under the store the
/// sweep evaluated.
pub proof fn lemma_next_stabilizes(
    q: Seq<(Seq<char>, PendingEntryView)>,
    store: Map<Seq<char>, ExecutionState>,
)
    ensures
        queue_stable(spec_next(q, store).queue, store),
{
    lemma_process_entries_stable(
        Seq::empty(),
        q.map_values(|p: (Seq<char>, PendingEntryView)| p.1),
        store,
    );
}

proof fn lemma_process_entries_requeues(
    acc: Seq<(Seq<char>, PendingEntryView)>,
    entries: Seq<PendingEntryView>,
    store: Map<Seq<char>, ExecutionState>,
)
    requires
        forall|i: int| 0 <= i < entries.len() ==> entry_blocked(#[trigger] entries[i], store),
        forall|i: int, j: int|
            0 <= i < j < entries.len() ==> entry_workload_name(entries[i]) != entry_workload_name(
                entries[j],
            ),
        forall|i: int|
            0 <= i < entries.len() ==> queue_key_index(
                acc,
                entry_workload_name(#[trigger] entries[i]),
            ) == -1,
    ensures
        process_entries(acc, entries, store) =~= (SchedulerStep {
            queue: acc + entries.map_values(|e: PendingEntryView| (entry_workload_name(e), e)),
            ready: Seq::empty(),
            reports: Seq::empty(),
        }),
    decreases entries.len(),
{
    let pairs = entries.map_values(|e: PendingEntryView| (entry_workload_name(e), e));
    if entries.len() == 0 {
        assert(acc + pairs =~= acc);
    } else {
        let e0 = entries[0];
        let name0 = entry_workload_name(e0);
        let first = step_entry(acc, e0, store);
        assert(queue_key_index(acc, name0) == -1);
        // A blocked entry is re-queued unchanged, and lands at the end.
        assert(first.queue == queue_insert_spec(acc, name0, e0));
        let acc2 = acc.push((name0, e0));
        assert(first.queue == acc2);
        assert(first.ready =~= Seq::<WorkloadOperationView>::empty());
        assert(first.reports =~= Seq::<WorkloadStateView>::empty());
        assert forall|i: int|
            0 <= i < entries.drop_first().len() implies queue_key_index(
            acc2,
            entry_workload_name(#[trigger] entries.drop_first()[i]),
        ) == -1 by {
            assert(entries.drop_first()[i] == entries[i + 1]);
            let ni = entry_workload_name(entries[i + 1]);
            assert(ni != name0);
            lemma_queue_key_index_props(acc, ni);
            lemma_key_index_push(acc, (name0, e0), ni);
        }
        lemma_process_entries_requeues(acc2, entries.drop_first(), store);
        assert(acc2 + entries.drop_first().map_values(
            |e: PendingEntryView| (entry_workload_name(e), e),
        ) =~= acc + pairs);
    }
}

proof fn lemma_key_index_push(
    q: Seq<(Seq<char>, PendingEntryView)>,
    p: (Seq<char>, PendingEntryView),
    k: Seq<char>,
)
    ensures
        queue_key_index(q.push(p), k) == if queue_key_index(q, k) >= 0 {
            queue_key_index(q, k)
        } else if p.0 == k {
            q.len() as int
        } else {
            -1
        },
    decreases q.len(),
{
    if q.len() == 0 {
        assert(q.push(p)[0] == p);
        assert(q.push(p).drop_first() =~= Seq::<(Seq<char>, PendingEntryView)>::empty());
        assert(queue_key_index(Seq::<(Seq<char>, PendingEntryView)>::empty(), k) == -1);
        assert(q =~= Seq::<(Seq<char>, PendingEntryView)>::empty());
        if p.0 == k {
            assert(queue_key_index(q.push(p), k) == 0);
        } else {
            assert(queue_key_index(q.push(p), k) == -1);
        }
    } else {
        assert(q.push(p)[0] == q[0]);
        assert(q.push(p).drop_first() =~= q.drop_first().push(p));
        lemma_key_index_push(q.drop_first(), p, k);
        assert(queue_key_index(q.push(p).drop_first(), k) == queue_key_index(
            q.drop_first().push(p),
            k,
        ));
    }
}

/// Law (idempotent re-sweep): an empty batch is exactly a sweep, and a
/// second sweep under the same store releases nothing, notifies nothing, and
/// leaves the queue unchanged.
pub proof fn lemma_next_idempotent(
    q: Seq<(Seq<char>, PendingEntryView)>,
    store: Map<Seq<char>, ExecutionState>,
)
    requires
        queue_wf(q),
    ensures
        spec_enqueue_filtered(q, Seq::empty(), store) =~= spec_next(q, store),
        spec_next(spec_next(q, store).queue, store) =~= (SchedulerStep {
            queue: spec_next(q, store).queue,
            ready: Seq::empty(),
            reports: Seq::empty(),
        }),
{
    // Empty batch: processing no operations leaves the queue as it is.
    assert(process_batch(q, Seq::empty(), store) == empty_step(q));
    assert(spec_enqueue_filtered(q, Seq::empty(), store) =~= spec_next(q, store));
    // Second sweep: every surviving entry is blocked and uniquely named, so
    // each is re-queued unchanged, in order.
    let q1 = spec_next(q, store).queue;
    lemma_next_stabilizes(q, store);
    assert(queue_wf(Seq::<(Seq<char>, PendingEntryView)>::empty()));
    lemma_process_entries_wf(
        Seq::empty(),
        q.map_values(|p: (Seq<char>, PendingEntryView)| p.1),
        store,
    );
    assert(queue_wf(q1));
    lemma_stable_sweep_identity(q1, store);
}

/// A sweep over a queue whose entries are all blocked is the identity.
pub proof fn lemma_stable_sweep_identity(
    q: Seq<(Seq<char>, PendingEntryView)>,
    store: Map<Seq<char>, ExecutionState>,
)
    requires
        queue_wf(q),
        queue_stable(q, store),
    ensures
        spec_next(q, store) =~= (SchedulerStep {
            queue: q,
            ready: Seq::empty(),
            reports: Seq::empty(),
        }),
{
    let entries = q.map_values(|p: (Seq<char>, PendingEntryView)| p.1);
    assert forall|i: int| 0 <= i < entries.len() implies entry_blocked(
        #[trigger] entries[i],
        store,
    ) by {
        assert(entries[i] == q[i].1);
    }
    assert forall|i: int, j: int|
        0 <= i < j < entries.len() implies entry_workload_name(entries[i]) != entry_workload_name(
        entries[j],
    ) by {
        assert(entries[i] == q[i].1);
        assert(entries[j] == q[j].1);
        assert(q[i].0 == entry_workload_name(q[i].1));
        assert(q[j].0 == entry_workload_name(q[j].1));
    }
    lemma_process_entries_requeues(Seq::empty(), entries, store);
    assert(Seq::<(Seq<char>, PendingEntryView)>::empty() + entries.map_values(
        |e: PendingEntryView| (entry_workload_name(e), e),
    ) =~= q);
}

} // verus!

verus! {

/// In an update entry the parked teardown names the same workload as the new
/// specification; the operation producer pairs the two generations of one
/// workload.
pub open spec fn entry_names_consistent(e: PendingEntryView) -> bool {
    match e {
        PendingEntryView::UpdateCreate(w, d) => d.instance_name.workload_name
            == w.instance_name.workload_name,
        PendingEntryView::UpdateDelete(w, d) => d.instance_name.workload_name
            == w.instance_name.workload_name,
        _ => true,
    }
}

/// The queued entry under a name, if any.
pub open spec fn queue_entry_of(
    q: Seq<(Seq<char>, PendingEntryView)>,
    name: Seq<char>,
) -> Option<PendingEntryView> {
    if queue_key_index(q, name) >= 0 {
        Some(q[queue_key_index(q, name)].1)
    } else {
        None
    }
}

/// What a sweep leaves queued of one drained entry: the entry itself while
/// its gate is shut, the parked create of a split update, or nothing once
/// released.
pub open spec fn step_entry_requeued(
    e: PendingEntryView,
    store: Map<Seq<char>, ExecutionState>,
) -> Option<PendingEntryView> {
    match e {
        PendingEntryView::Create(w) => if spec_create_fulfilled(w, store) {
            None
        } else {
            Some(e)
        },
        PendingEntryView::Delete(d) => if spec_delete_fulfilled(d, store) {
            None
        } else {
            Some(e)
        },
        PendingEntryView::UpdateCreate(w, _) => if spec_create_fulfilled(w, store) {
            None
        } else {
            Some(e)
        },
        PendingEntryView::UpdateDelete(w, d) => {
            let cf = spec_create_fulfilled(w, store);
            let df = spec_delete_fulfilled(d, store);
            if cf && df {
                None
            } else if df {
                Some(PendingEntryView::UpdateCreate(w, d))
            } else {
                Some(e)
            }
        },
    }
}

/// The released operations that concern one workload name, in order.
pub open spec fn ops_for_name(
    ops: Seq<WorkloadOperationView>,
    name: Seq<char>,
) -> Seq<WorkloadOperationView>
    decreases ops.len(),
{
    if ops.len() == 0 {
        Seq::empty()
    } else {
        let rest = ops_for_name(ops.drop_first(), name);
        if op_workload_name(ops[0]) == name {
            seq![ops[0]] + rest
        } else {
            rest
        }
    }
}

proof fn lemma_ops_for_name_singleton(op: WorkloadOperationView, name: Seq<char>)
    ensures
        op_workload_name(op) == name ==> ops_for_name(seq![op], name) =~= seq![op],
        op_workload_name(op) != name ==> ops_for_name(seq![op], name) =~= Seq::<
            WorkloadOperationView,
        >::empty(),
{
    assert(seq![op].drop_first() =~= Seq::<WorkloadOperationView>::empty());
    assert(ops_for_name(Seq::<WorkloadOperationView>::empty(), name) =~= Seq::<
        WorkloadOperationView,
    >::empty());
}

proof fn lemma_ops_for_name_concat(
    a: Seq<WorkloadOperationView>,
    b: Seq<WorkloadOperationView>,
    name: Seq<char>,
)
    ensures
        ops_for_name(a + b, name) =~= ops_for_name(a, name) + ops_for_name(b, name),
    decreases a.len(),
{
    if a.len() == 0 {
        assert(a + b =~= b);
        assert(ops_for_name(a, name) =~= Seq::<WorkloadOperationView>::empty());
    } else {
        assert((a + b)[0] == a[0]);
        assert((a + b).drop_first() =~= a.drop_first() + b);
        lemma_ops_for_name_concat(a.drop_first(), b, name);
    }
}

proof fn lemma_key_index_update_keys(
    q: Seq<(Seq<char>, PendingEntryView)>,
    i: int,
    p: (Seq<char>, PendingEntryView),
    k: Seq<char>,
)
    requires
        0 <= i < q.len(),
        q[i].0 == p.0,
    ensures
        queue_key_index(q.update(i, p), k) == queue_key_index(q, k),
    decreases q.len(),
{
    if i == 0 {
        assert(q.update(0, p)[0] == p);
        assert(q.update(0, p).drop_first() =~= q.drop_first());
    } else {
        assert(q.update(i, p)[0] == q[0]);
        assert(q.update(i, p).drop_first() =~= q.drop_first().update(i - 1, p));
        lemma_key_index_update_keys(q.drop_first(), i - 1, p, k);
    }
}

/// Inserting under one name leaves every other name's slot untouched.
proof fn lemma_insert_other_key(
    q: Seq<(Seq<char>, PendingEntryView)>,
    name: Seq<char>,
    e: PendingEntryView,
    k: Seq<char>,
)
    requires
        k != name,
    ensures
        queue_entry_of(queue_insert_spec(q, name, e), k) == queue_entry_of(q, k),
        queue_key_index(queue_insert_spec(q, name, e), k) >= 0 <==> queue_key_index(q, k) >= 0,
{
    lemma_queue_key_index_props(q, name);
    lemma_queue_key_index_props(q, k);
    let i = queue_key_index(q, name);
    if i >= 0 {
        lemma_key_index_update_keys(q, i, (name, e), k);
        let ik = queue_key_index(q, k);
        if ik >= 0 {
            assert(q[ik].0 == k);
            assert(ik != i);
            assert(q.update(i, (name, e))[ik] == q[ik]);
        }
    } else {
        lemma_key_index_push(q, (name, e), k);
        let ik = queue_key_index(q, k);
        if ik >= 0 {
            assert(q.push((name, e))[ik] == q[ik]);
        }
    }
}

proof fn lemma_insert_same_key(
    q: Seq<(Seq<char>, PendingEntryView)>,
    name: Seq<char>,
    e: PendingEntryView,
)
    ensures
        queue_entry_of(queue_insert_spec(q, name, e), name) == Some(e),
{
    lemma_queue_key_index_props(q, name);
    let i = queue_key_index(q, name);
    if i >= 0 {
        lemma_key_index_update_keys(q, i, (name, e), name);
        assert(q.update(i, (name, e))[i] == (name, e));
    } else {
        lemma_key_index_push(q, (name, e), name);
        assert(q.push((name, e))[q.len() as int] == (name, e));
    }
}

/// One drained entry releases at most one operation, always under its own
/// workload name; its effect on the queue is `step_entry_requeued`, and what
/// it releases and notifies does not depend on the queue around it.
proof fn lemma_step_entry_shape(
    q: Seq<(Seq<char>, PendingEntryView)>,
    e: PendingEntryView,
    store: Map<Seq<char>, ExecutionState>,
)
    requires
        entry_names_consistent(e),
    ensures
        ({
            let st = step_entry(q, e, store);
            let st0 = step_entry(Seq::empty(), e, store);
            &&& st.ready == st0.ready
            &&& st.ready.len() <= 1
            &&& ops_for_name(st.ready, entry_workload_name(e)) =~= st.ready
            &&& forall|n: Seq<char>|
                n != entry_workload_name(e) ==> ops_for_name(st.ready, n) =~= Seq::<
                    WorkloadOperationView,
                >::empty()
            &&& match step_entry_requeued(e, store) {
                Some(e2) => {
                    &&& st.queue == queue_insert_spec(q, entry_workload_name(e), e2)
                    &&& entry_workload_name(e2) == entry_workload_name(e)
                    &&& entry_names_consistent(e2)
                },
                None => st.queue == q,
            }
        }),
{
    let st = step_entry(q, e, store);
    let nm = entry_workload_name(e);
    if st.ready.len() == 0 {
        assert(ops_for_name(st.ready, nm) =~= st.ready);
        assert forall|n: Seq<char>| n != nm implies ops_for_name(st.ready, n) =~= Seq::<
            WorkloadOperationView,
        >::empty() by {
            assert(ops_for_name(st.ready, n) =~= Seq::<WorkloadOperationView>::empty());
        }
    } else {
        assert(st.ready =~= seq![st.ready[0]]);
        assert(op_workload_name(st.ready[0]) == nm);
        lemma_ops_for_name_singleton(st.ready[0], nm);
        assert(ops_for_name(st.ready, nm) =~= st.ready);
        assert forall|n: Seq<char>| n != nm implies ops_for_name(st.ready, n) =~= Seq::<
            WorkloadOperationView,
        >::empty() by {
            lemma_ops_for_name_singleton(st.ready[0], n);
        }
    }
}

/// Where an entry with the given workload name first stands among the
/// drained entries.
pub open spec fn entries_name_index(entries: Seq<PendingEntryView>, name: Seq<char>) -> int
    decreases entries.len(),
{
    if entries.len() == 0 {
        -1
    } else if entry_workload_name(entries[0]) == name {
        0
    } else {
        let r = entries_name_index(entries.drop_first(), name);
        if r < 0 {
            -1
        } else {
            r + 1
        }
    }
}

proof fn lemma_entries_name_index_props(entries: Seq<PendingEntryView>, name: Seq<char>)
    ensures
        entries_name_index(entries, name) == -1 ==> forall|j: int|
            0 <= j < entries.len() ==> entry_workload_name(#[trigger] entries[j]) != name,
        entries_name_index(entries, name) >= 0 ==> {
            &&& 0 <= entries_name_index(entries, name) < entries.len()
            &&& entry_workload_name(entries[entries_name_index(entries, name)]) == name
        },
    decreases entries.len(),
{
    if entries.len() > 0 && entry_workload_name(entries[0]) != name {
        lemma_entries_name_index_props(entries.drop_first(), name);
        assert(forall|j: int| 0 < j < entries.len() ==> #[trigger] entries[j]
            == entries.drop_first()[j - 1]);
    }
}

proof fn lemma_sweep_per_name_rec(
    acc: Seq<(Seq<char>, PendingEntryView)>,
    entries: Seq<PendingEntryView>,
    store: Map<Seq<char>, ExecutionState>,
    name: Seq<char>,
)
    requires
        forall|i: int, j: int|
            0 <= i < j < entries.len() ==> entry_workload_name(entries[i]) != entry_workload_name(
                entries[j],
            ),
        forall|i: int| 0 <= i < entries.len() ==> entry_names_consistent(#[trigger] entries[i]),
        entries_name_index(entries, name) >= 0 ==> queue_key_index(acc, name) == -1,
    ensures
        ({
            let st = process_entries(acc, entries, store);
            let k = entries_name_index(entries, name);
            &&& k == -1 ==> (ops_for_name(st.ready, name) =~= Seq::<WorkloadOperationView>::empty())
                && queue_entry_of(st.queue, name) == queue_entry_of(acc, name)
            &&& k >= 0 ==> (ops_for_name(st.ready, name) =~= step_entry(
                Seq::empty(),
                entries[k],
                store,
            ).ready) && queue_entry_of(st.queue, name) == step_entry_requeued(entries[k], store)
        }),
    decreases entries.len(),
{
    let st = process_entries(acc, entries, store);
    let k = entries_name_index(entries, name);
    if entries.len() == 0 {
        assert(ops_for_name(st.ready, name) =~= Seq::<WorkloadOperationView>::empty());
    } else {
        let e0 = entries[0];
        let name0 = entry_workload_name(e0);
        let first = step_entry(acc, e0, store);
        let rest = process_entries(first.queue, entries.drop_first(), store);
        lemma_step_entry_shape(acc, e0, store);
        lemma_ops_for_name_concat(first.ready, rest.ready, name);
        assert(forall|j: int| 0 < j < entries.len() ==> #[trigger] entries[j]
            == entries.drop_first()[j - 1]);
        if name0 == name {
            // This is the entry for the name; nothing later carries it.
            assert(k == 0);
            assert(queue_key_index(acc, name) == -1);
            lemma_entries_name_index_props(entries.drop_first(), name);
            assert forall|j: int| 0 <= j < entries.drop_first().len() implies entry_workload_name(
                #[trigger] entries.drop_first()[j],
            ) != name by {
                assert(entries.drop_first()[j] == entries[j + 1]);
            }
            if entries_name_index(entries.drop_first(), name) >= 0 {
                lemma_entries_name_index_props(entries.drop_first(), name);
                assert(false);
            }
            lemma_sweep_per_name_rec(first.queue, entries.drop_first(), store, name);
            assert(ops_for_name(rest.ready, name) =~= Seq::<WorkloadOperationView>::empty());
            assert(ops_for_name(st.ready, name) =~= step_entry(Seq::empty(), e0, store).ready);
            match step_entry_requeued(e0, store) {
                Some(e2) => {
                    lemma_insert_same_key(acc, name, e2);
                },
                None => {
                    lemma_queue_key_index_props(acc, name);
                },
            }
            assert(queue_entry_of(st.queue, name) == queue_entry_of(first.queue, name));
        } else {
            // Another workload's entry: it neither releases operations under
            // this name nor touches this name's queue slot.
            assert(ops_for_name(first.ready, name) =~= Seq::<WorkloadOperationView>::empty());
            match step_entry_requeued(e0, store) {
                Some(e2) => {
                    lemma_insert_other_key(acc, name0, e2, name);
                },
                None => {},
            }
            if entries_name_index(entries.drop_first(), name) >= 0 {
                assert(k == entries_name_index(entries.drop_first(), name) + 1);
                assert(queue_key_index(acc, name) == -1);
                assert(queue_key_index(first.queue, name) == -1) by {
                    match step_entry_requeued(e0, store) {
                        Some(e2) => {
                            lemma_insert_other_key(acc, name0, e2, name);
                        },
                        None => {},
                    }
                }
            } else {
                assert(k == -1);
            }
            lemma_sweep_per_name_rec(first.queue, entries.drop_first(), store, name);
            if k >= 0 {
                lemma_entries_name_index_props(entries.drop_first(), name);
                assert(0 <= k - 1 < entries.drop_first().len());
                assert(entries.drop_first()[k - 1] == entries[k]);
            }
        }
    }
}

/// Law (per-name sweep emissions): under queue uniqueness, one sweep releases
/// for each workload name at most one operation: none for a name with no
/// queued entry, and for a queued entry exactly what `step_entry` of that
/// entry releases; the queue afterwards holds for that name exactly
/// `step_entry_requeued` of the entry.
pub proof fn lemma_sweep_per_name(
    q: Seq<(Seq<char>, PendingEntryView)>,
    store: Map<Seq<char>, ExecutionState>,
    name: Seq<char>,
)
    requires
        queue_wf(q),
        forall|i: int| 0 <= i < q.len() ==> entry_names_consistent((#[trigger] q[i]).1),
    ensures
        ({
            let st = spec_next(q, store);
            let ki = queue_key_index(q, name);
            &&& ops_for_name(st.ready, name).len() <= 1
            &&& ki == -1 ==> (ops_for_name(st.ready, name) =~= Seq::<
                WorkloadOperationView,
            >::empty()) && queue_entry_of(st.queue, name) == None::<PendingEntryView>
            &&& ki >= 0 ==> (ops_for_name(st.ready, name) =~= step_entry(
                Seq::empty(),
                q[ki].1,
                store,
            ).ready) && queue_entry_of(st.queue, name) == step_entry_requeued(q[ki].1, store)
        }),
{
    let entries = q.map_values(|p: (Seq<char>, PendingEntryView)| p.1);
    assert forall|i: int, j: int|
        0 <= i < j < entries.len() implies entry_workload_name(entries[i]) != entry_workload_name(
        entries[j],
    ) by {
        assert(entries[i] == q[i].1);
        assert(entries[j] == q[j].1);
        assert(q[i].0 == entry_workload_name(q[i].1));
        assert(q[j].0 == entry_workload_name(q[j].1));
    }
    assert forall|i: int| 0 <= i < entries.len() implies entry_names_consistent(
        #[trigger] entries[i],
    ) by {
        assert(entries[i] == q[i].1);
    }
    let ki = queue_key_index(q, name);
    let k = entries_name_index(entries, name);
    lemma_queue_key_index_props(q, name);
    lemma_entries_name_index_props(entries, name);
    // The first queue key with the name is the first entry with the name.
    if ki >= 0 && k >= 0 {
        assert(entries[k] == q[k].1);
        assert(q[k].0 == entry_workload_name(q[k].1));
        assert(q[ki].0 == name);
        assert(entries[ki] == q[ki].1);
        if k != ki {
            assert(entry_workload_name(entries[k]) == entry_workload_name(entries[ki]));
            assert(false);
        }
    } else if ki >= 0 {
        assert(entries[ki] == q[ki].1);
        assert(entry_workload_name(entries[ki]) == name);
        assert(false);
    } else if k >= 0 {
        assert(entries[k] == q[k].1);
        assert(q[k].0 == entry_workload_name(q[k].1));
        assert(false);
    }
    assert(queue_key_index(Seq::<(Seq<char>, PendingEntryView)>::empty(), name) == -1);
    lemma_sweep_per_name_rec(Seq::empty(), entries, store, name);
    if ki >= 0 {
        lemma_step_entry_shape(Seq::empty(), q[ki].1, store);
    }
}

/// Law (at-most-once update, teardown phase): while an accepted
/// `Update(new, old)` waits as an `UpdateDelete` entry, a sweep releases for
/// its workload name nothing while the teardown is blocked; exactly the split
/// `UpdateDeleteOnly(old)` when the teardown may proceed but the create may
/// not, re-parking the create; and exactly `Update(new, old)` when both
/// gates are open, emptying the slot. No other operation for that name is
/// released.
pub proof fn lemma_pending_update_sweep(
    q: Seq<(Seq<char>, PendingEntryView)>,
    store: Map<Seq<char>, ExecutionState>,
    name: Seq<char>,
    w: crate::objects::WorkloadSpecView,
    d: crate::objects::DeletedWorkloadView,
)
    requires
        queue_wf(q),
        forall|i: int| 0 <= i < q.len() ==> entry_names_consistent((#[trigger] q[i]).1),
        queue_key_index(q, name) >= 0,
        q[queue_key_index(q, name)].1 == PendingEntryView::UpdateDelete(w, d),
    ensures
        ({
            let st = spec_next(q, store);
            let cf = spec_create_fulfilled(w, store);
            let df = spec_delete_fulfilled(d, store);
            &&& !df ==> (ops_for_name(st.ready, name) =~= Seq::<WorkloadOperationView>::empty())
                && queue_entry_of(st.queue, name) == Some(PendingEntryView::UpdateDelete(w, d))
            &&& (df && !cf) ==> (ops_for_name(st.ready, name) =~= seq![
                WorkloadOperationView::UpdateDeleteOnly(d),
            ]) && queue_entry_of(st.queue, name) == Some(PendingEntryView::UpdateCreate(w, d))
            &&& (df && cf) ==> (ops_for_name(st.ready, name) =~= seq![
                WorkloadOperationView::Update(w, d),
            ]) && queue_entry_of(st.queue, name) == None::<PendingEntryView>
        }),
{
    lemma_sweep_per_name(q, store, name);
}

/// Law (at-most-once update, parked-create phase): once the split happened
/// and `UpdateCreate` waits, a sweep releases for that name nothing while the
/// create gate is shut, and exactly the final `Update(new, old)` once it
/// opens, emptying the slot.
pub proof fn lemma_parked_update_create_sweep(
    q: Seq<(Seq<char>, PendingEntryView)>,
    store: Map<Seq<char>, ExecutionState>,
    name: Seq<char>,
    w: crate::objects::WorkloadSpecView,
    d: crate::objects::DeletedWorkloadView,
)
    requires
        queue_wf(q),
        forall|i: int| 0 <= i < q.len() ==> entry_names_consistent((#[trigger] q[i]).1),
        queue_key_index(q, name) >= 0,
        q[queue_key_index(q, name)].1 == PendingEntryView::UpdateCreate(w, d),
    ensures
        ({
            let st = spec_next(q, store);
            let cf = spec_create_fulfilled(w, store);
            &&& !cf ==> (ops_for_name(st.ready, name) =~= Seq::<WorkloadOperationView>::empty())
                && queue_entry_of(st.queue, name) == Some(PendingEntryView::UpdateCreate(w, d))
            &&& cf ==> (ops_for_name(st.ready, name) =~= seq![WorkloadOperationView::Update(w, d)])
                && queue_entry_of(st.queue, name) == None::<PendingEntryView>
        }),
{
    lemma_sweep_per_name(q, store, name);
}

} // verus!

verus! {

/// What an accepted update still owes for its workload name: both halves
/// while the whole update waits, the final half once the teardown was split
/// off, nothing once the update itself was released.
pub open spec fn update_emissions_owed(
    q: Seq<(Seq<char>, PendingEntryView)>,
    name: Seq<char>,
    w: crate::objects::WorkloadSpecView,
    d: crate::objects::DeletedWorkloadView,
) -> Seq<WorkloadOperationView> {
    if queue_entry_of(q, name) == Some(PendingEntryView::UpdateDelete(w, d)) {
        seq![
            WorkloadOperationView::UpdateDeleteOnly(d),
            WorkloadOperationView::Update(w, d),
        ]
    } else if queue_entry_of(q, name) == Some(PendingEntryView::UpdateCreate(w, d)) {
        seq![WorkloadOperationView::Update(w, d)]
    } else {
        Seq::empty()
    }
}

/// Law (at-most-once update, prefix form): one sweep releases for an
/// accepted update exactly the front of what it still owes along the split
/// path `[UpdateDeleteOnly(old), Update(new, old)]` — or, when both gates
/// open together, the single `Update(new, old)` in one piece. Across any run
/// of sweeps the operations released under the name therefore concatenate to
/// a prefix of `[UpdateDeleteOnly(old), Update(new, old)]` or to
/// `[Update(new, old)]`, and nothing else is ever released under that name.
pub proof fn lemma_update_emission_prefix(
    q: Seq<(Seq<char>, PendingEntryView)>,
    store: Map<Seq<char>, ExecutionState>,
    name: Seq<char>,
    w: crate::objects::WorkloadSpecView,
    d: crate::objects::DeletedWorkloadView,
)
    requires
        queue_wf(q),
        forall|i: int| 0 <= i < q.len() ==> entry_names_consistent((#[trigger] q[i]).1),
        queue_entry_of(q, name) == Some(PendingEntryView::UpdateDelete(w, d)) || queue_entry_of(
            q,
            name,
        ) == Some(PendingEntryView::UpdateCreate(w, d)),
    ensures
        ({
            let st = spec_next(q, store);
            ||| ops_for_name(st.ready, name) + update_emissions_owed(st.queue, name, w, d)
                =~= update_emissions_owed(q, name, w, d)
            ||| {
                &&& queue_entry_of(q, name) == Some(PendingEntryView::UpdateDelete(w, d))
                &&& ops_for_name(st.ready, name) =~= seq![WorkloadOperationView::Update(w, d)]
                &&& queue_entry_of(st.queue, name) == None::<PendingEntryView>
            }
        }),
{
    let st = spec_next(q, store);
    let ki = queue_key_index(q, name);
    lemma_queue_key_index_props(q, name);
    assert(ki >= 0);
    if queue_entry_of(q, name) == Some(PendingEntryView::UpdateDelete(w, d)) {
        lemma_pending_update_sweep(q, store, name, w, d);
        let cf = spec_create_fulfilled(w, store);
        let df = spec_delete_fulfilled(d, store);
        if !df {
            assert(ops_for_name(st.ready, name) + update_emissions_owed(st.queue, name, w, d)
                =~= update_emissions_owed(q, name, w, d));
        } else if !cf {
            assert(ops_for_name(st.ready, name) + update_emissions_owed(st.queue, name, w, d)
                =~= update_emissions_owed(q, name, w, d));
        } else {
            assert(ops_for_name(st.ready, name) =~= seq![WorkloadOperationView::Update(w, d)]);
            assert(queue_entry_of(st.queue, name) == None::<PendingEntryView>);
        }
    } else {
        lemma_parked_update_create_sweep(q, store, name, w, d);
        let cf = spec_create_fulfilled(w, store);
        if cf {
            assert(queue_entry_of(st.queue, name) == None::<PendingEntryView>);
            assert(update_emissions_owed(st.queue, name, w, d) =~= Seq::<
                WorkloadOperationView,
            >::empty());
            assert(ops_for_name(st.ready, name) + update_emissions_owed(st.queue, name, w, d)
                =~= update_emissions_owed(q, name, w, d));
        } else {
            assert(ops_for_name(st.ready, name) + update_emissions_owed(st.queue, name, w, d)
                =~= update_emissions_owed(q, name, w, d));
        }
    }
}

} // verus!

verus! {

/// An update operation pairs the two generations of one workload name.
pub open spec fn op_names_consistent(op: WorkloadOperationView) -> bool {
    match op {
        WorkloadOperationView::Update(w, d) => d.instance_name.workload_name
            == w.instance_name.workload_name,
        _ => true,
    }
}

/// Processing an operation for one workload releases nothing under another
/// name and leaves the other name's queue slot untouched.
proof fn lemma_step_operation_other_names(
    q: Seq<(Seq<char>, PendingEntryView)>,
    op: WorkloadOperationView,
    store: Map<Seq<char>, ExecutionState>,
    notify: bool,
    n: Seq<char>,
)
    requires
        op_names_consistent(op),
        op_workload_name(op) != n,
    ensures
        ops_for_name(step_operation(q, op, store, notify).ready, n) =~= Seq::<
            WorkloadOperationView,
        >::empty(),
        queue_entry_of(step_operation(q, op, store, notify).queue, n) == queue_entry_of(q, n),
{
    let st = step_operation(q, op, store, notify);
    if st.ready.len() == 0 {
        assert(ops_for_name(st.ready, n) =~= Seq::<WorkloadOperationView>::empty());
    } else {
        assert(st.ready =~= seq![st.ready[0]]);
        assert(op_workload_name(st.ready[0]) == op_workload_name(op));
        lemma_ops_for_name_singleton(st.ready[0], n);
    }
    match op {
        WorkloadOperationView::Create(w) => {
            if !spec_create_fulfilled(w, store) {
                lemma_insert_other_key(q, w.instance_name.workload_name, PendingEntryView::Create(w), n);
            }
        },
        WorkloadOperationView::Delete(d) => {
            if !spec_delete_fulfilled(d, store) {
                lemma_insert_other_key(q, d.instance_name.workload_name, PendingEntryView::Delete(d), n);
            }
        },
        WorkloadOperationView::Update(w, d) => {
            let cf = spec_create_fulfilled(w, store);
            let df = spec_delete_fulfilled(d, store);
            if cf && df {
            } else if df {
                lemma_insert_other_key(
                    q,
                    w.instance_name.workload_name,
                    PendingEntryView::UpdateCreate(w, d),
                    n,
                );
            } else {
                lemma_insert_other_key(
                    q,
                    w.instance_name.workload_name,
                    PendingEntryView::UpdateDelete(w, d),
                    n,
                );
            }
        },
        WorkloadOperationView::UpdateDeleteOnly(_) => {},
    }
}

/// Processing an operation keeps every queue entry name-consistent.
proof fn lemma_step_operation_consistent(
    q: Seq<(Seq<char>, PendingEntryView)>,
    op: WorkloadOperationView,
    store: Map<Seq<char>, ExecutionState>,
    notify: bool,
)
    requires
        forall|i: int| 0 <= i < q.len() ==> entry_names_consistent((#[trigger] q[i]).1),
        op_names_consistent(op),
    ensures
        forall|i: int|
            0 <= i < step_operation(q, op, store, notify).queue.len() ==> entry_names_consistent(
                (#[trigger] step_operation(q, op, store, notify).queue[i]).1,
            ),
{
    let st = step_operation(q, op, store, notify);
    assert forall|i: int| 0 <= i < st.queue.len() implies entry_names_consistent(
        (#[trigger] st.queue[i]).1,
    ) by {
        match op {
            WorkloadOperationView::Create(w) => {
                if !spec_create_fulfilled(w, store) {
                    lemma_queue_key_index_props(q, w.instance_name.workload_name);
                    let ki = queue_key_index(q, w.instance_name.workload_name);
                    if ki >= 0 {
                        if i != ki {
                            assert(st.queue[i] == q[i]);
                        }
                    } else {
                        if i < q.len() {
                            assert(st.queue[i] == q[i]);
                        }
                    }
                }
            },
            WorkloadOperationView::Delete(d) => {
                if !spec_delete_fulfilled(d, store) {
                    lemma_queue_key_index_props(q, d.instance_name.workload_name);
                    let ki = queue_key_index(q, d.instance_name.workload_name);
                    if ki >= 0 {
                        if i != ki {
                            assert(st.queue[i] == q[i]);
                        }
                    } else {
                        if i < q.len() {
                            assert(st.queue[i] == q[i]);
                        }
                    }
                }
            },
            WorkloadOperationView::Update(w, d) => {
                let cf = spec_create_fulfilled(w, store);
                let df = spec_delete_fulfilled(d, store);
                if !(cf && df) {
                    lemma_queue_key_index_props(q, w.instance_name.workload_name);
                    let ki = queue_key_index(q, w.instance_name.workload_name);
                    if ki >= 0 {
                        if i != ki {
                            assert(st.queue[i] == q[i]);
                        }
                    } else {
                        if i < q.len() {
                            assert(st.queue[i] == q[i]);
                        }
                    }
                }
            },
            WorkloadOperationView::UpdateDeleteOnly(_) => {},
        }
    }
}

/// A batch with no operation for a name releases nothing under it and leaves
/// its queue slot untouched, keeping every entry name-consistent.
proof fn lemma_process_batch_per_name(
    q: Seq<(Seq<char>, PendingEntryView)>,
    ops: Seq<WorkloadOperationView>,
    store: Map<Seq<char>, ExecutionState>,
    n: Seq<char>,
)
    requires
        forall|i: int| 0 <= i < q.len() ==> entry_names_consistent((#[trigger] q[i]).1),
        forall|i: int| 0 <= i < ops.len() ==> op_names_consistent(#[trigger] ops[i]),
        forall|i: int| 0 <= i < ops.len() ==> op_workload_name(#[trigger] ops[i]) != n,
    ensures
        ops_for_name(process_batch(q, ops, store).ready, n) =~= Seq::<
            WorkloadOperationView,
        >::empty(),
        queue_entry_of(process_batch(q, ops, store).queue, n) == queue_entry_of(q, n),
        forall|i: int|
            0 <= i < process_batch(q, ops, store).queue.len() ==> entry_names_consistent(
                (#[trigger] process_batch(q, ops, store).queue[i]).1,
            ),
    decreases ops.len(),
{
    if ops.len() == 0 {
        assert(ops_for_name(process_batch(q, ops, store).ready, n) =~= Seq::<
            WorkloadOperationView,
        >::empty());
    } else {
        let first = step_operation(q, ops[0], store, true);
        let rest = process_batch(first.queue, ops.drop_first(), store);
        lemma_step_operation_other_names(q, ops[0], store, true, n);
        lemma_step_operation_consistent(q, ops[0], store, true);
        assert(forall|i: int|
            0 < i < ops.len() ==> #[trigger] ops[i] == ops.drop_first()[i - 1]);
        lemma_process_batch_per_name(first.queue, ops.drop_first(), store, n);
        lemma_ops_for_name_concat(first.ready, rest.ready, n);
    }
}

/// Law (at-most-once update across batches): a producer batch that holds no
/// operation for an accepted update's workload name releases nothing under
/// that name on its own account; the appended sweep then releases exactly
/// the front of what the update still owes, or the whole update in one
/// piece. Nothing else is ever released under that name by such a call.
pub proof fn lemma_update_emission_prefix_enqueue(
    q: Seq<(Seq<char>, PendingEntryView)>,
    ops: Seq<WorkloadOperationView>,
    store: Map<Seq<char>, ExecutionState>,
    name: Seq<char>,
    w: crate::objects::WorkloadSpecView,
    d: crate::objects::DeletedWorkloadView,
)
    requires
        queue_wf(q),
        forall|i: int| 0 <= i < q.len() ==> entry_names_consistent((#[trigger] q[i]).1),
        forall|i: int| 0 <= i < ops.len() ==> op_names_consistent(#[trigger] ops[i]),
        forall|i: int| 0 <= i < ops.len() ==> op_workload_name(#[trigger] ops[i]) != name,
        queue_entry_of(q, name) == Some(PendingEntryView::UpdateDelete(w, d)) || queue_entry_of(
            q,
            name,
        ) == Some(PendingEntryView::UpdateCreate(w, d)),
    ensures
        ({
            let st = spec_enqueue_filtered(q, ops, store);
            ||| ops_for_name(st.ready, name) + update_emissions_owed(st.queue, name, w, d)
                =~= update_emissions_owed(q, name, w, d)
            ||| {
                &&& queue_entry_of(q, name) == Some(PendingEntryView::UpdateDelete(w, d))
                &&& ops_for_name(st.ready, name) =~= seq![WorkloadOperationView::Update(w, d)]
                &&& queue_entry_of(st.queue, name) == None::<PendingEntryView>
            }
        }),
{
    let b = process_batch(q, ops, store);
    let sw = spec_next(b.queue, store);
    lemma_process_batch_per_name(q, ops, store, name);
    crate::scheduler::lemma_process_batch_wf(q, ops, store);
    lemma_update_emission_prefix(b.queue, store, name, w, d);
    lemma_ops_for_name_concat(b.ready, sw.ready, name);
    assert(ops_for_name(b.ready + sw.ready, name) =~= ops_for_name(sw.ready, name));
}

} // verus!
