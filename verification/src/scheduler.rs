//! The workload scheduler: holds a pending queue of operations whose
//! dependency preconditions are not yet met, releases the ones that became
//! ready, and hands back the waiting-state notifications to send.
//!
//! The model below (`step_operation`, `process_batch`, `process_entries`)
//! states exactly which operations a call releases, what the queue holds
//! afterwards, and which notifications are produced; the executable methods
//! are proved equal to it.

use vstd::prelude::*;

use crate::dependency_state_validator::DependencyStateValidator;
use crate::dependency_state_validator::spec_create_fulfilled;
use crate::dependency_state_validator::spec_delete_fulfilled;
use crate::objects::DeletedWorkload;
use crate::objects::DeletedWorkloadView;
use crate::objects::ExecutionState;
use crate::objects::InstanceNameView;
use crate::objects::WorkloadSpec;
use crate::objects::WorkloadSpecView;
use crate::objects::WorkloadState;
use crate::objects::WorkloadStateView;
use crate::parameter_storage::ParameterStorage;
use crate::text::str_eq;
use crate::workload_operation::WorkloadOperation;
use crate::workload_operation::WorkloadOperationView;
use crate::workload_operation::ops_view;

verus! {

/// An operation parked in the queue until its preconditions are met. There
/// is deliberately no variant for `UpdateDeleteOnly`: that operation is
/// never persisted.
#[derive(PartialEq, Eq, Debug)]
pub enum PendingEntry {
    Create(WorkloadSpec),
    Delete(DeletedWorkload),
    UpdateCreate(WorkloadSpec, DeletedWorkload),
    UpdateDelete(WorkloadSpec, DeletedWorkload),
}

pub ghost enum PendingEntryView {
    Create(WorkloadSpecView),
    Delete(DeletedWorkloadView),
    UpdateCreate(WorkloadSpecView, DeletedWorkloadView),
    UpdateDelete(WorkloadSpecView, DeletedWorkloadView),
}

impl View for PendingEntry {
    type V = PendingEntryView;

    open spec fn view(&self) -> PendingEntryView {
        match self {
            PendingEntry::Create(w) => PendingEntryView::Create(w@),
            PendingEntry::Delete(d) => PendingEntryView::Delete(d@),
            PendingEntry::UpdateCreate(w, d) => PendingEntryView::UpdateCreate(w@, d@),
            PendingEntry::UpdateDelete(w, d) => PendingEntryView::UpdateDelete(w@, d@),
        }
    }
}

/// The workload name under which an entry is queued.
pub open spec fn entry_workload_name(e: PendingEntryView) -> Seq<char> {
    match e {
        PendingEntryView::Create(w) => w.instance_name.workload_name,
        PendingEntryView::Delete(d) => d.instance_name.workload_name,
        PendingEntryView::UpdateCreate(w, _) => w.instance_name.workload_name,
        PendingEntryView::UpdateDelete(w, _) => w.instance_name.workload_name,
    }
}

pub open spec fn reports_view(s: Seq<WorkloadState>) -> Seq<WorkloadStateView> {
    s.map_values(|w: WorkloadState| w@)
}

pub open spec fn waiting_to_start_report(n: InstanceNameView) -> WorkloadStateView {
    WorkloadStateView { instance_name: n, execution_state: ExecutionState::WaitingToStart }
}

pub open spec fn waiting_to_stop_report(n: InstanceNameView) -> WorkloadStateView {
    WorkloadStateView { instance_name: n, execution_state: ExecutionState::WaitingToStop }
}

/// The queue, seen as a sequence of (name, entry) pairs in insertion order.
pub open spec fn queue_key_index(q: Seq<(Seq<char>, PendingEntryView)>, name: Seq<char>) -> int
    decreases q.len(),
{
    if q.len() == 0 {
        -1
    } else if q[0].0 == name {
        0
    } else {
        let r = queue_key_index(q.drop_first(), name);
        if r < 0 {
            -1
        } else {
            r + 1
        }
    }
}

pub open spec fn queue_insert_spec(
    q: Seq<(Seq<char>, PendingEntryView)>,
    name: Seq<char>,
    e: PendingEntryView,
) -> Seq<(Seq<char>, PendingEntryView)> {
    let i = queue_key_index(q, name);
    if i >= 0 {
        q.update(i, (name, e))
    } else {
        q.push((name, e))
    }
}

pub proof fn lemma_queue_key_index_props(q: Seq<(Seq<char>, PendingEntryView)>, name: Seq<char>)
    ensures
        queue_key_index(q, name) == -1 ==> forall|j: int|
            0 <= j < q.len() ==> (#[trigger] q[j]).0 != name,
        queue_key_index(q, name) >= 0 ==> {
            &&& 0 <= queue_key_index(q, name) < q.len()
            &&& q[queue_key_index(q, name)].0 == name
            &&& forall|j: int| 0 <= j < queue_key_index(q, name) ==> (#[trigger] q[j]).0 != name
        },
    decreases q.len(),
{
    if q.len() > 0 && q[0].0 != name {
        lemma_queue_key_index_props(q.drop_first(), name);
        assert(forall|j: int|
            0 < j < q.len() ==> (#[trigger] q[j]) == q.drop_first()[j - 1]);
    }
}

/// What one scheduler action does: the queue afterwards, the operations
/// released (in order), and the notifications produced (in order).
#[verifier::ext_equal]
pub ghost struct SchedulerStep {
    pub queue: Seq<(Seq<char>, PendingEntryView)>,
    pub ready: Seq<WorkloadOperationView>,
    pub reports: Seq<WorkloadStateView>,
}

pub open spec fn step_seq(a: SchedulerStep, b: SchedulerStep) -> SchedulerStep {
    SchedulerStep { queue: b.queue, ready: a.ready + b.ready, reports: a.reports + b.reports }
}

/// One incoming operation, with the four-case update table.
/// `notify` is false on re-sweeps, where a still-blocked entry must not
/// repeat its waiting notification; the update split (teardown released, the
/// create re-parked) notifies regardless, because the entry then enters the
/// queue in a new shape.
pub open spec fn step_operation(
    q: Seq<(Seq<char>, PendingEntryView)>,
    op: WorkloadOperationView,
    store: Map<Seq<char>, ExecutionState>,
    notify: bool,
) -> SchedulerStep {
    match op {
        WorkloadOperationView::Create(w) => {
            if spec_create_fulfilled(w, store) {
                SchedulerStep { queue: q, ready: seq![op], reports: seq![] }
            } else {
                SchedulerStep {
                    queue: queue_insert_spec(
                        q,
                        w.instance_name.workload_name,
                        PendingEntryView::Create(w),
                    ),
                    ready: seq![],
                    reports: if notify {
                        seq![waiting_to_start_report(w.instance_name)]
                    } else {
                        seq![]
                    },
                }
            }
        },
        WorkloadOperationView::Delete(d) => {
            if spec_delete_fulfilled(d, store) {
                SchedulerStep { queue: q, ready: seq![op], reports: seq![] }
            } else {
                SchedulerStep {
                    queue: queue_insert_spec(
                        q,
                        d.instance_name.workload_name,
                        PendingEntryView::Delete(d),
                    ),
                    ready: seq![],
                    reports: if notify {
                        seq![waiting_to_stop_report(d.instance_name)]
                    } else {
                        seq![]
                    },
                }
            }
        },
        WorkloadOperationView::Update(w, d) => {
            let cf = spec_create_fulfilled(w, store);
            let df = spec_delete_fulfilled(d, store);
            if cf && df {
                SchedulerStep { queue: q, ready: seq![op], reports: seq![] }
            } else if df {
                SchedulerStep {
                    queue: queue_insert_spec(
                        q,
                        w.instance_name.workload_name,
                        PendingEntryView::UpdateCreate(w, d),
                    ),
                    ready: seq![WorkloadOperationView::UpdateDeleteOnly(d)],
                    reports: seq![waiting_to_start_report(w.instance_name)],
                }
            } else {
                SchedulerStep {
                    queue: queue_insert_spec(
                        q,
                        w.instance_name.workload_name,
                        PendingEntryView::UpdateDelete(w, d),
                    ),
                    ready: seq![],
                    reports: if notify {
                        seq![waiting_to_stop_report(d.instance_name)]
                    } else {
                        seq![]
                    },
                }
            }
        },
        WorkloadOperationView::UpdateDeleteOnly(_) => {
            // Invalid producer input: dropped, never enqueued.
            SchedulerStep { queue: q, ready: seq![], reports: seq![] }
        },
    }
}

/// One drained queue entry on a re-sweep.
pub open spec fn step_entry(
    q: Seq<(Seq<char>, PendingEntryView)>,
    e: PendingEntryView,
    store: Map<Seq<char>, ExecutionState>,
) -> SchedulerStep {
    match e {
        PendingEntryView::Create(w) => step_operation(
            q,
            WorkloadOperationView::Create(w),
            store,
            false,
        ),
        PendingEntryView::Delete(d) => step_operation(
            q,
            WorkloadOperationView::Delete(d),
            store,
            false,
        ),
        PendingEntryView::UpdateDelete(w, d) => step_operation(
            q,
            WorkloadOperationView::Update(w, d),
            store,
            false,
        ),
        PendingEntryView::UpdateCreate(w, d) => {
            // The teardown already happened; only the create gate is left.
            if spec_create_fulfilled(w, store) {
                SchedulerStep {
                    queue: q,
                    ready: seq![WorkloadOperationView::Update(w, d)],
                    reports: seq![],
                }
            } else {
                SchedulerStep {
                    queue: queue_insert_spec(
                        q,
                        w.instance_name.workload_name,
                        PendingEntryView::UpdateCreate(w, d),
                    ),
                    ready: seq![],
                    reports: seq![],
                }
            }
        },
    }
}

pub open spec fn empty_step(q: Seq<(Seq<char>, PendingEntryView)>) -> SchedulerStep {
    SchedulerStep { queue: q, ready: seq![], reports: seq![] }
}

pub open spec fn process_batch(
    q: Seq<(Seq<char>, PendingEntryView)>,
    ops: Seq<WorkloadOperationView>,
    store: Map<Seq<char>, ExecutionState>,
) -> SchedulerStep
    decreases ops.len(),
{
    if ops.len() == 0 {
        empty_step(q)
    } else {
        let first = step_operation(q, ops[0], store, true);
        step_seq(first, process_batch(first.queue, ops.drop_first(), store))
    }
}

pub open spec fn process_entries(
    q: Seq<(Seq<char>, PendingEntryView)>,
    entries: Seq<PendingEntryView>,
    store: Map<Seq<char>, ExecutionState>,
) -> SchedulerStep
    decreases entries.len(),
{
    if entries.len() == 0 {
        empty_step(q)
    } else {
        let first = step_entry(q, entries[0], store);
        step_seq(first, process_entries(first.queue, entries.drop_first(), store))
    }
}

/// A re-sweep: the queue is drained, still-blocked entries are re-queued in
/// order, ready ones are released.
pub open spec fn spec_next(
    q: Seq<(Seq<char>, PendingEntryView)>,
    store: Map<Seq<char>, ExecutionState>,
) -> SchedulerStep {
    process_entries(Seq::empty(), q.map_values(|p: (Seq<char>, PendingEntryView)| p.1), store)
}

/// A new batch from the operation producer, followed by a re-sweep of the
/// queue; the sweep's output is appended to the batch's.
pub open spec fn spec_enqueue_filtered(
    q: Seq<(Seq<char>, PendingEntryView)>,
    ops: Seq<WorkloadOperationView>,
    store: Map<Seq<char>, ExecutionState>,
) -> SchedulerStep {
    let b = process_batch(q, ops, store);
    step_seq(b, spec_next(b.queue, store))
}

pub proof fn lemma_process_batch_snoc(
    q: Seq<(Seq<char>, PendingEntryView)>,
    ops: Seq<WorkloadOperationView>,
    op: WorkloadOperationView,
    store: Map<Seq<char>, ExecutionState>,
)
    ensures
        process_batch(q, ops.push(op), store) =~= step_seq(
            process_batch(q, ops, store),
            step_operation(process_batch(q, ops, store).queue, op, store, true),
        ),
    decreases ops.len(),
{
    if ops.len() == 0 {
        let s1 = step_operation(q, op, store, true);
        assert(ops.push(op)[0] == op);
        assert(ops.push(op).drop_first() =~= Seq::<WorkloadOperationView>::empty());
        assert(process_batch(q, ops.push(op), store) == step_seq(
            s1,
            process_batch(s1.queue, Seq::<WorkloadOperationView>::empty(), store),
        ));
        assert(process_batch(s1.queue, Seq::<WorkloadOperationView>::empty(), store)
            == empty_step(s1.queue));
        assert(process_batch(q, ops, store) == empty_step(q));
    } else {
        assert(ops.push(op)[0] == ops[0]);
        assert(ops.push(op).drop_first() =~= ops.drop_first().push(op));
        let first = step_operation(q, ops[0], store, true);
        lemma_process_batch_snoc(first.queue, ops.drop_first(), op, store);
        assert(process_batch(q, ops.push(op), store) == step_seq(
            first,
            process_batch(first.queue, ops.drop_first().push(op), store),
        ));
        assert(process_batch(q, ops, store) == step_seq(
            first,
            process_batch(first.queue, ops.drop_first(), store),
        ));
    }
}

pub proof fn lemma_process_entries_snoc(
    q: Seq<(Seq<char>, PendingEntryView)>,
    entries: Seq<PendingEntryView>,
    e: PendingEntryView,
    store: Map<Seq<char>, ExecutionState>,
)
    ensures
        process_entries(q, entries.push(e), store) =~= step_seq(
            process_entries(q, entries, store),
            step_entry(process_entries(q, entries, store).queue, e, store),
        ),
    decreases entries.len(),
{
    if entries.len() == 0 {
        let s1 = step_entry(q, e, store);
        assert(entries.push(e)[0] == e);
        assert(entries.push(e).drop_first() =~= Seq::<PendingEntryView>::empty());
        assert(process_entries(q, entries.push(e), store) == step_seq(
            s1,
            process_entries(s1.queue, Seq::<PendingEntryView>::empty(), store),
        ));
        assert(process_entries(s1.queue, Seq::<PendingEntryView>::empty(), store)
            == empty_step(s1.queue));
        assert(process_entries(q, entries, store) == empty_step(q));
    } else {
        assert(entries.push(e)[0] == entries[0]);
        assert(entries.push(e).drop_first() =~= entries.drop_first().push(e));
        let first = step_entry(q, entries[0], store);
        lemma_process_entries_snoc(first.queue, entries.drop_first(), e, store);
        assert(process_entries(q, entries.push(e), store) == step_seq(
            first,
            process_entries(first.queue, entries.drop_first().push(e), store),
        ));
        assert(process_entries(q, entries, store) == step_seq(
            first,
            process_entries(first.queue, entries.drop_first(), store),
        ));
    }
}

/// At most one entry per workload name, each under the name of the workload
/// it concerns.
pub open spec fn queue_wf(q: Seq<(Seq<char>, PendingEntryView)>) -> bool {
    &&& forall|i: int, j: int| 0 <= i < j < q.len() ==> (#[trigger] q[i]).0 != (#[trigger] q[j]).0
    &&& forall|i: int| 0 <= i < q.len() ==> (#[trigger] q[i]).0 == entry_workload_name(q[i].1)
}

pub proof fn lemma_queue_insert_wf(
    q: Seq<(Seq<char>, PendingEntryView)>,
    name: Seq<char>,
    e: PendingEntryView,
)
    requires
        queue_wf(q),
        entry_workload_name(e) == name,
    ensures
        queue_wf(queue_insert_spec(q, name, e)),
{
    lemma_queue_key_index_props(q, name);
}

pub proof fn lemma_step_operation_wf(
    q: Seq<(Seq<char>, PendingEntryView)>,
    op: WorkloadOperationView,
    store: Map<Seq<char>, ExecutionState>,
    notify: bool,
)
    requires
        queue_wf(q),
    ensures
        queue_wf(step_operation(q, op, store, notify).queue),
{
    match op {
        WorkloadOperationView::Create(w) => {
            if !spec_create_fulfilled(w, store) {
                lemma_queue_insert_wf(
                    q,
                    w.instance_name.workload_name,
                    PendingEntryView::Create(w),
                );
            }
        },
        WorkloadOperationView::Delete(d) => {
            if !spec_delete_fulfilled(d, store) {
                lemma_queue_insert_wf(
                    q,
                    d.instance_name.workload_name,
                    PendingEntryView::Delete(d),
                );
            }
        },
        WorkloadOperationView::Update(w, d) => {
            let cf = spec_create_fulfilled(w, store);
            let df = spec_delete_fulfilled(d, store);
            if cf && df {
            } else if df {
                lemma_queue_insert_wf(
                    q,
                    w.instance_name.workload_name,
                    PendingEntryView::UpdateCreate(w, d),
                );
            } else {
                lemma_queue_insert_wf(
                    q,
                    w.instance_name.workload_name,
                    PendingEntryView::UpdateDelete(w, d),
                );
            }
        },
        WorkloadOperationView::UpdateDeleteOnly(_) => {},
    }
}

pub proof fn lemma_step_entry_wf(
    q: Seq<(Seq<char>, PendingEntryView)>,
    e: PendingEntryView,
    store: Map<Seq<char>, ExecutionState>,
)
    requires
        queue_wf(q),
    ensures
        queue_wf(step_entry(q, e, store).queue),
{
    match e {
        PendingEntryView::Create(w) => lemma_step_operation_wf(
            q,
            WorkloadOperationView::Create(w),
            store,
            false,
        ),
        PendingEntryView::Delete(d) => lemma_step_operation_wf(
            q,
            WorkloadOperationView::Delete(d),
            store,
            false,
        ),
        PendingEntryView::UpdateDelete(w, d) => lemma_step_operation_wf(
            q,
            WorkloadOperationView::Update(w, d),
            store,
            false,
        ),
        PendingEntryView::UpdateCreate(w, d) => {
            if !spec_create_fulfilled(w, store) {
                lemma_queue_insert_wf(
                    q,
                    w.instance_name.workload_name,
                    PendingEntryView::UpdateCreate(w, d),
                );
            }
        },
    }
}

pub proof fn lemma_process_batch_wf(
    q: Seq<(Seq<char>, PendingEntryView)>,
    ops: Seq<WorkloadOperationView>,
    store: Map<Seq<char>, ExecutionState>,
)
    requires
        queue_wf(q),
    ensures
        queue_wf(process_batch(q, ops, store).queue),
    decreases ops.len(),
{
    if ops.len() > 0 {
        lemma_step_operation_wf(q, ops[0], store, true);
        lemma_process_batch_wf(step_operation(q, ops[0], store, true).queue, ops.drop_first(), store);
    }
}

pub proof fn lemma_process_entries_wf(
    q: Seq<(Seq<char>, PendingEntryView)>,
    entries: Seq<PendingEntryView>,
    store: Map<Seq<char>, ExecutionState>,
)
    requires
        queue_wf(q),
    ensures
        queue_wf(process_entries(q, entries, store).queue),
    decreases entries.len(),
{
    if entries.len() > 0 {
        lemma_step_entry_wf(q, entries[0], store);
        lemma_process_entries_wf(step_entry(q, entries[0], store).queue, entries.drop_first(), store);
    }
}

/// The scheduler's pending queue. Queue uniqueness (one entry per workload
/// name) is part of `wf` and every method keeps it.
pub struct WorkloadScheduler {
    queue: Vec<(String, PendingEntry)>,
}

impl View for WorkloadScheduler {
    type V = Seq<(Seq<char>, PendingEntryView)>;

    closed spec fn view(&self) -> Seq<(Seq<char>, PendingEntryView)> {
        self.queue@.map_values(|p: (String, PendingEntry)| (p.0@, p.1@))
    }
}

pub open spec fn entries_view(s: Seq<(String, PendingEntry)>) -> Seq<PendingEntryView> {
    s.map_values(|p: (String, PendingEntry)| p.1@)
}

fn report_pending_create_state(pending_workload: &WorkloadSpec) -> (r: WorkloadState)
    ensures
        r@ == waiting_to_start_report(pending_workload@.instance_name),
{
    WorkloadState {
        instance_name: pending_workload.instance_name.duplicate(),
        execution_state: ExecutionState::WaitingToStart,
    }
}

fn report_pending_delete_state(waiting_deleted_workload: &DeletedWorkload) -> (r: WorkloadState)
    ensures
        r@ == waiting_to_stop_report(waiting_deleted_workload@.instance_name),
{
    WorkloadState {
        instance_name: waiting_deleted_workload.instance_name.duplicate(),
        execution_state: ExecutionState::WaitingToStop,
    }
}

impl WorkloadScheduler {
    pub open spec fn wf(&self) -> bool {
        queue_wf(self@)
    }

    pub fn new() -> (s: Self)
        ensures
            s@ == Seq::<(Seq<char>, PendingEntryView)>::empty(),
            s.wf(),
    {
        let s = WorkloadScheduler { queue: Vec::new() };
        proof {
            assert(s@ =~= Seq::<(Seq<char>, PendingEntryView)>::empty());
        }
        s
    }

    /// How many entries are pending.
    pub fn queue_len(&self) -> (n: usize)
        ensures
            n == self@.len(),
    {
        self.queue.len()
    }

    /// The pending entry for a workload name, if one is queued.
    pub fn pending_entry_of(&self, name: &str) -> (r: Option<&PendingEntry>)
        ensures
            match r {
                Some(e) => {
                    &&& queue_key_index(self@, name@) >= 0
                    &&& e@ == self@[queue_key_index(self@, name@)].1
                },
                None => queue_key_index(self@, name@) == -1,
            },
    {
        proof {
            lemma_queue_key_index_props(self@, name@);
        }
        let n = self.queue.len();
        let mut i: usize = 0;
        while i < n
            invariant
                n == self.queue.len(),
                i <= n,
                forall|j: int| 0 <= j < i ==> (#[trigger] self@[j]).0 != name@,
            decreases n - i,
        {
            if str_eq(self.queue[i].0.as_str(), name) {
                proof {
                    lemma_queue_key_index_props(self@, name@);
                    assert(self@[i as int].0 == name@);
                }
                return Some(&self.queue[i].1);
            }
            i += 1;
        }
        proof {
            lemma_queue_key_index_props(self@, name@);
        }
        None
    }

    fn queue_insert(&mut self, name: String, entry: PendingEntry)
        ensures
            final(self)@ == queue_insert_spec(old(self)@, name@, entry@),
    {
        proof {
            lemma_queue_key_index_props(old(self)@, name@);
        }
        let n = self.queue.len();
        let mut i: usize = 0;
        while i < n
            invariant
                self == old(self),
                n == self.queue.len(),
                i <= n,
                forall|j: int| 0 <= j < i ==> (#[trigger] self@[j]).0 != name@,
            decreases n - i,
        {
            if str_eq(self.queue[i].0.as_str(), name.as_str()) {
                proof {
                    assert(self@[i as int] == (self.queue@[i as int].0@, self.queue@[i as int].1@));
                    assert(self@[i as int].0 == name@);
                    lemma_queue_key_index_props(self@, name@);
                    assert(queue_key_index(self@, name@) == i as int);
                }
                self.queue[i] = (name, entry);
                proof {
                    assert(self@ =~= old(self)@.update(i as int, (name@, entry@)));
                }
                return ;
            }
            i += 1;
        }
        proof {
            lemma_queue_key_index_props(self@, name@);
            assert(queue_key_index(self@, name@) == -1);
        }
        self.queue.push((name, entry));
        proof {
            assert(self@ =~= old(self)@.push((name@, entry@)));
        }
    }

    fn enqueue_pending_create(
        &mut self,
        new_workload_spec: WorkloadSpec,
        workload_state_db: &ParameterStorage,
        notify_on_new_entry: bool,
        ready: &mut Vec<WorkloadOperation>,
        reports: &mut Vec<WorkloadState>,
    )
        requires
            workload_state_db.wf(),
        ensures
            ({
                let st = step_operation(
                    old(self)@,
                    WorkloadOperationView::Create(new_workload_spec@),
                    workload_state_db@,
                    notify_on_new_entry,
                );
                &&& final(self)@ == st.queue
                &&& ops_view(final(ready)@) == ops_view(old(ready)@) + st.ready
                &&& reports_view(final(reports)@) == reports_view(old(reports)@) + st.reports
            }),
    {
        let ghost st = step_operation(
            old(self)@,
            WorkloadOperationView::Create(new_workload_spec@),
            workload_state_db@,
            notify_on_new_entry,
        );
        if DependencyStateValidator::create_fulfilled(&new_workload_spec, workload_state_db) {
            ready.push(WorkloadOperation::Create(new_workload_spec));
            proof {
                assert(ops_view(ready@) =~= ops_view(old(ready)@) + st.ready);
                assert(reports_view(reports@) =~= reports_view(old(reports)@) + st.reports);
            }
        } else {
            if notify_on_new_entry {
                reports.push(report_pending_create_state(&new_workload_spec));
            }
            let name = new_workload_spec.instance_name.workload_name.clone();
            self.queue_insert(name, PendingEntry::Create(new_workload_spec));
            proof {
                assert(ops_view(ready@) =~= ops_view(old(ready)@) + st.ready);
                assert(reports_view(reports@) =~= reports_view(old(reports)@) + st.reports);
            }
        }
    }

    fn enqueue_pending_delete(
        &mut self,
        deleted_workload: DeletedWorkload,
        workload_state_db: &ParameterStorage,
        notify_on_new_entry: bool,
        ready: &mut Vec<WorkloadOperation>,
        reports: &mut Vec<WorkloadState>,
    )
        requires
            workload_state_db.wf(),
        ensures
            ({
                let st = step_operation(
                    old(self)@,
                    WorkloadOperationView::Delete(deleted_workload@),
                    workload_state_db@,
                    notify_on_new_entry,
                );
                &&& final(self)@ == st.queue
                &&& ops_view(final(ready)@) == ops_view(old(ready)@) + st.ready
                &&& reports_view(final(reports)@) == reports_view(old(reports)@) + st.reports
            }),
    {
        let ghost st = step_operation(
            old(self)@,
            WorkloadOperationView::Delete(deleted_workload@),
            workload_state_db@,
            notify_on_new_entry,
        );
        if DependencyStateValidator::delete_fulfilled(&deleted_workload, workload_state_db) {
            ready.push(WorkloadOperation::Delete(deleted_workload));
            proof {
                assert(ops_view(ready@) =~= ops_view(old(ready)@) + st.ready);
                assert(reports_view(reports@) =~= reports_view(old(reports)@) + st.reports);
            }
        } else {
            if notify_on_new_entry {
                reports.push(report_pending_delete_state(&deleted_workload));
            }
            let name = deleted_workload.instance_name.workload_name.clone();
            self.queue_insert(name, PendingEntry::Delete(deleted_workload));
            proof {
                assert(ops_view(ready@) =~= ops_view(old(ready)@) + st.ready);
                assert(reports_view(reports@) =~= reports_view(old(reports)@) + st.reports);
            }
        }
    }

    fn enqueue_pending_update(
        &mut self,
        new_workload_spec: WorkloadSpec,
        deleted_workload: DeletedWorkload,
        workload_state_db: &ParameterStorage,
        notify_on_new_entry: bool,
        ready: &mut Vec<WorkloadOperation>,
        reports: &mut Vec<WorkloadState>,
    )
        requires
            workload_state_db.wf(),
        ensures
            ({
                let st = step_operation(
                    old(self)@,
                    WorkloadOperationView::Update(new_workload_spec@, deleted_workload@),
                    workload_state_db@,
                    notify_on_new_entry,
                );
                &&& final(self)@ == st.queue
                &&& ops_view(final(ready)@) == ops_view(old(ready)@) + st.ready
                &&& reports_view(final(reports)@) == reports_view(old(reports)@) + st.reports
            }),
    {
        let ghost st = step_operation(
            old(self)@,
            WorkloadOperationView::Update(new_workload_spec@, deleted_workload@),
            workload_state_db@,
            notify_on_new_entry,
        );
        let create_fulfilled = DependencyStateValidator::create_fulfilled(
            &new_workload_spec,
            workload_state_db,
        );
        let delete_fulfilled = DependencyStateValidator::delete_fulfilled(
            &deleted_workload,
            workload_state_db,
        );
        if create_fulfilled && delete_fulfilled {
            // Both gates open: the update can be done immediately.
            ready.push(WorkloadOperation::Update(new_workload_spec, deleted_workload));
            proof {
                assert(ops_view(ready@) =~= ops_view(old(ready)@) + st.ready);
                assert(reports_view(reports@) =~= reports_view(old(reports)@) + st.reports);
            }
            return ;
        }
        if delete_fulfilled {
            // The teardown can proceed now; the create must wait in the
            // queue until the old workload is gone (at-most-once update).
            reports.push(report_pending_create_state(&new_workload_spec));
            let name = new_workload_spec.instance_name.workload_name.clone();
            let parked_deleted = deleted_workload.duplicate();
            self.queue_insert(
                name,
                PendingEntry::UpdateCreate(new_workload_spec, parked_deleted),
            );
            ready.push(WorkloadOperation::UpdateDeleteOnly(deleted_workload));
            proof {
                assert(ops_view(ready@) =~= ops_view(old(ready)@) + st.ready);
                assert(reports_view(reports@) =~= reports_view(old(reports)@) + st.reports);
            }
        } else {
            // The teardown is blocked: the whole update waits.
            if notify_on_new_entry {
                reports.push(report_pending_delete_state(&deleted_workload));
            }
            let name = new_workload_spec.instance_name.workload_name.clone();
            self.queue_insert(
                name,
                PendingEntry::UpdateDelete(new_workload_spec, deleted_workload),
            );
            proof {
                assert(ops_view(ready@) =~= ops_view(old(ready)@) + st.ready);
                assert(reports_view(reports@) =~= reports_view(old(reports)@) + st.reports);
            }
        }
    }

    /// Processes a new batch from the operation producer, then re-sweeps the
    /// queue; returns the operations now ready and the waiting-state
    /// notifications to send, both in order.
    pub fn enqueue_filtered_workload_operations(
        &mut self,
        new_workload_operations: Vec<WorkloadOperation>,
        workload_state_db: &ParameterStorage,
    ) -> (r: (Vec<WorkloadOperation>, Vec<WorkloadState>))
        requires
            old(self).wf(),
            workload_state_db.wf(),
        ensures
            final(self).wf(),
            ({
                let st = spec_enqueue_filtered(
                    old(self)@,
                    ops_view(new_workload_operations@),
                    workload_state_db@,
                );
                &&& final(self)@ == st.queue
                &&& ops_view(r.0@) == st.ready
                &&& reports_view(r.1@) == st.reports
            }),
    {
        let ghost q0 = self@;
        let ghost all_ops = ops_view(new_workload_operations@);
        let mut remaining = new_workload_operations;
        let mut ready: Vec<WorkloadOperation> = Vec::new();
        let mut reports: Vec<WorkloadState> = Vec::new();
        let ghost mut processed: int = 0;
        proof {
            assert(ops_view(remaining@) =~= all_ops.skip(0));
            assert(all_ops.take(0) =~= Seq::<WorkloadOperationView>::empty());
            assert(ops_view(ready@) =~= process_batch(q0, all_ops.take(0), workload_state_db@).ready);
            assert(reports_view(reports@) =~= process_batch(
                q0,
                all_ops.take(0),
                workload_state_db@,
            ).reports);
        }
        while remaining.len() > 0
            invariant
                workload_state_db.wf(),
                0 <= processed <= all_ops.len(),
                processed + remaining@.len() == all_ops.len(),
                ops_view(remaining@) == all_ops.skip(processed),
                ({
                    let st = process_batch(q0, all_ops.take(processed), workload_state_db@);
                    &&& self@ == st.queue
                    &&& ops_view(ready@) == st.ready
                    &&& reports_view(reports@) == st.reports
                }),
            decreases remaining.len(),
        {
            let ghost pre_remaining = remaining@;
            let op = remaining.remove(0);
            proof {
                assert(ops_view(pre_remaining)[0] == op@);
                assert(op@ == all_ops[processed]);
                assert(ops_view(remaining@) =~= ops_view(pre_remaining).drop_first());
                assert(ops_view(remaining@) =~= all_ops.skip(processed + 1));
                lemma_process_batch_snoc(
                    q0,
                    all_ops.take(processed),
                    all_ops[processed],
                    workload_state_db@,
                );
                assert(all_ops.take(processed + 1) =~= all_ops.take(processed).push(
                    all_ops[processed],
                ));
            }
            let ghost st_pre = process_batch(q0, all_ops.take(processed), workload_state_db@);
            let ghost step = step_operation(st_pre.queue, op@, workload_state_db@, true);
            match op {
                WorkloadOperation::Create(new_workload_spec) => {
                    self.enqueue_pending_create(
                        new_workload_spec,
                        workload_state_db,
                        true,
                        &mut ready,
                        &mut reports,
                    );
                },
                WorkloadOperation::Update(new_workload_spec, deleted_workload) => {
                    self.enqueue_pending_update(
                        new_workload_spec,
                        deleted_workload,
                        workload_state_db,
                        true,
                        &mut ready,
                        &mut reports,
                    );
                },
                WorkloadOperation::Delete(deleted_workload) => {
                    self.enqueue_pending_delete(
                        deleted_workload,
                        workload_state_db,
                        true,
                        &mut ready,
                        &mut reports,
                    );
                },
                WorkloadOperation::UpdateDeleteOnly(_) => {
                    // Invalid producer input (I4): dropped, never enqueued.
                    proof {
                        assert(ops_view(ready@) =~= ops_view(ready@) + step.ready);
                        assert(reports_view(reports@) =~= reports_view(reports@) + step.reports);
                    }
                },
            }
            proof {
                processed = processed + 1;
            }
        }
        proof {
            assert(all_ops.take(processed) =~= all_ops);
            lemma_process_batch_wf(q0, all_ops, workload_state_db@);
        }
        let (mut swept_ready, mut swept_reports) = self.next_workload_operations(
            workload_state_db,
        );
        let ghost pre_ready = ready@;
        let ghost pre_reports = reports@;
        let ghost pre_swept_ready = swept_ready@;
        let ghost pre_swept_reports = swept_reports@;
        ready.append(&mut swept_ready);
        reports.append(&mut swept_reports);
        proof {
            assert(ops_view(ready@) =~= ops_view(pre_ready) + ops_view(pre_swept_ready));
            assert(reports_view(reports@) =~= reports_view(pre_reports) + reports_view(
                pre_swept_reports,
            ));
        }
        (ready, reports)
    }

    /// Drains the queue, releases the entries whose preconditions now hold,
    /// and re-queues the rest; waiting notifications are not repeated on this
    /// path, except for an update whose teardown is released now.
    pub fn next_workload_operations(&mut self, workload_state_db: &ParameterStorage) -> (r: (
        Vec<WorkloadOperation>,
        Vec<WorkloadState>,
    ))
        requires
            old(self).wf(),
            workload_state_db.wf(),
        ensures
            final(self).wf(),
            ({
                let st = spec_next(old(self)@, workload_state_db@);
                &&& final(self)@ == st.queue
                &&& ops_view(r.0@) == st.ready
                &&& reports_view(r.1@) == st.reports
            }),
    {
        let ghost q0 = self@;
        let ghost all_entries = q0.map_values(|p: (Seq<char>, PendingEntryView)| p.1);
        let mut drained = self.queue.split_off(0);
        proof {
            assert(self@ =~= Seq::<(Seq<char>, PendingEntryView)>::empty());
            assert(entries_view(drained@) =~= all_entries);
        }
        let mut ready: Vec<WorkloadOperation> = Vec::new();
        let mut reports: Vec<WorkloadState> = Vec::new();
        let ghost mut processed: int = 0;
        proof {
            assert(entries_view(drained@) =~= all_entries.skip(0));
            assert(all_entries.take(0) =~= Seq::<PendingEntryView>::empty());
            assert(ops_view(ready@) =~= process_entries(
                Seq::empty(),
                all_entries.take(0),
                workload_state_db@,
            ).ready);
            assert(reports_view(reports@) =~= process_entries(
                Seq::empty(),
                all_entries.take(0),
                workload_state_db@,
            ).reports);
        }
        while drained.len() > 0
            invariant
                workload_state_db.wf(),
                0 <= processed <= all_entries.len(),
                processed + drained@.len() == all_entries.len(),
                entries_view(drained@) == all_entries.skip(processed),
                ({
                    let st = process_entries(
                        Seq::empty(),
                        all_entries.take(processed),
                        workload_state_db@,
                    );
                    &&& self@ == st.queue
                    &&& ops_view(ready@) == st.ready
                    &&& reports_view(reports@) == st.reports
                }),
            decreases drained.len(),
        {
            let ghost pre_drained = drained@;
            let (_, entry) = drained.remove(0);
            proof {
                assert(entries_view(pre_drained)[0] == entry@);
                assert(entry@ == all_entries[processed]);
                assert(entries_view(drained@) =~= entries_view(pre_drained).drop_first());
                assert(entries_view(drained@) =~= all_entries.skip(processed + 1));
                lemma_process_entries_snoc(
                    Seq::empty(),
                    all_entries.take(processed),
                    all_entries[processed],
                    workload_state_db@,
                );
                assert(all_entries.take(processed + 1) =~= all_entries.take(processed).push(
                    all_entries[processed],
                ));
            }
            let ghost st_pre = process_entries(
                Seq::empty(),
                all_entries.take(processed),
                workload_state_db@,
            );
            let ghost step = step_entry(st_pre.queue, entry@, workload_state_db@);
            match entry {
                PendingEntry::Create(new_workload_spec) => {
                    self.enqueue_pending_create(
                        new_workload_spec,
                        workload_state_db,
                        false,
                        &mut ready,
                        &mut reports,
                    );
                },
                PendingEntry::Delete(deleted_workload) => {
                    self.enqueue_pending_delete(
                        deleted_workload,
                        workload_state_db,
                        false,
                        &mut ready,
                        &mut reports,
                    );
                },
                PendingEntry::UpdateDelete(new_workload_spec, deleted_workload) => {
                    self.enqueue_pending_update(
                        new_workload_spec,
                        deleted_workload,
                        workload_state_db,
                        false,
                        &mut ready,
                        &mut reports,
                    );
                },
                PendingEntry::UpdateCreate(new_workload_spec, deleted_workload) => {
                    // The teardown already happened: only the create gate is
                    // re-checked; no notification on a re-sweep.
                    if DependencyStateValidator::create_fulfilled(
                        &new_workload_spec,
                        workload_state_db,
                    ) {
                        let ghost pre_ready = ready@;
                        ready.push(
                            WorkloadOperation::Update(new_workload_spec, deleted_workload),
                        );
                        proof {
                            assert(ops_view(ready@) =~= ops_view(pre_ready) + step.ready);
                            assert(reports_view(reports@) =~= reports_view(reports@)
                                + step.reports);
                        }
                    } else {
                        let name = new_workload_spec.instance_name.workload_name.clone();
                        self.queue_insert(
                            name,
                            PendingEntry::UpdateCreate(new_workload_spec, deleted_workload),
                        );
                        proof {
                            assert(ops_view(ready@) =~= ops_view(ready@) + step.ready);
                            assert(reports_view(reports@) =~= reports_view(reports@)
                                + step.reports);
                        }
                    }
                },
            }
            proof {
                processed = processed + 1;
            }
        }
        proof {
            assert(all_entries.take(processed) =~= all_entries);
            lemma_process_entries_wf(Seq::empty(), all_entries, workload_state_db@);
        }
        (ready, reports)
    }
}

} // verus!
