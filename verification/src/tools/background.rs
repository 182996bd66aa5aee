//! Background subagent tasks: their states, the notifications queued for the
//! parent agent, and the events and aborts that the surrounding program carries
//! out.
use std::collections::VecDeque;
use vstd::prelude::*;
use crate::registry::{
    distinct_ids, lemma_same_slots, lemma_slot, lemma_slot_is, put_of, slot_of, Registry,
};
use crate::text::{
    head, in_order, lemma_in_order_around, lemma_in_order_concat, lemma_in_order_itself, lemma_in_order_more,
    lemma_in_order_next, lemma_in_order_none, same, take_chars,
};

verus! {

/// Characters that are kept of a task's answer or error.
pub const MAX_TASK_OUTPUT_CHARS: usize = 3000;

/// Number of tasks that are remembered.
pub const STORE_CAPACITY: usize = 32;

/// Number of tasks that may run at the same time.
pub const MAX_CONCURRENT_SUBAGENTS: usize = 4;

/// State of a background task.
#[derive(Debug, PartialEq)]
pub enum TaskState {
    Running,
    Completed(String),
    Failed(String),
}

/// State of a background task, its answer or error as text.
pub enum TaskStateView {
    Running,
    Completed(Seq<char>),
    Failed(Seq<char>),
}

impl View for TaskState {
    type V = TaskStateView;

    open spec fn view(&self) -> TaskStateView {
        match self {
            TaskState::Running => TaskStateView::Running,
            TaskState::Completed(t) => TaskStateView::Completed(t@),
            TaskState::Failed(e) => TaskStateView::Failed(e@),
        }
    }
}

impl Clone for TaskState {
    fn clone(&self) -> (r: Self)
        ensures
            r@ == self@,
    {
        match self {
            TaskState::Running => TaskState::Running,
            TaskState::Completed(t) => TaskState::Completed(t.clone()),
            TaskState::Failed(e) => TaskState::Failed(e.clone()),
        }
    }
}

/// A remembered task.
#[derive(Debug)]
pub struct BackgroundTask {
    pub state: TaskState,
}

/// The end of a task, ready to be told to the parent agent.
#[derive(Debug, PartialEq)]
pub struct TaskNotification {
    pub id: String,
    pub state: TaskState,
}

/// What happens to a task, for the user to see.
#[derive(Debug)]
pub enum LifecycleEvent {
    Started { id: String },
    Finished(TaskNotification),
}

/// What happens to a task, as text.
pub enum LifecycleView {
    Started(Seq<char>),
    Finished(Seq<char>, TaskStateView),
}

impl View for LifecycleEvent {
    type V = LifecycleView;

    open spec fn view(&self) -> LifecycleView {
        match self {
            LifecycleEvent::Started { id } => LifecycleView::Started(id@),
            LifecycleEvent::Finished(n) => LifecycleView::Finished(n.id@, n.state@),
        }
    }
}

/// Names the channel on which the user interface gets lifecycle events.
#[derive(Clone, Copy, Debug, PartialEq, Eq, Structural)]
pub struct LifecycleSender {
    pub id: u64,
}

/// A state with its text cut to the kept length.
pub open spec fn truncated_of(s: TaskStateView) -> TaskStateView {
    match s {
        TaskStateView::Running => s,
        TaskStateView::Completed(t) => TaskStateView::Completed(
            head(t, MAX_TASK_OUTPUT_CHARS as nat),
        ),
        TaskStateView::Failed(e) => TaskStateView::Failed(head(e, MAX_TASK_OUTPUT_CHARS as nat)),
    }
}

fn truncate_state(state: TaskState) -> (r: TaskState)
    ensures
        r@ == truncated_of(state@),
{
    match state {
        TaskState::Completed(text) => TaskState::Completed(
            take_chars(text.as_str(), MAX_TASK_OUTPUT_CHARS),
        ),
        TaskState::Failed(err) => TaskState::Failed(take_chars(err.as_str(), MAX_TASK_OUTPUT_CHARS)),
        TaskState::Running => TaskState::Running,
    }
}

/// What a store holds: the tasks in the order of their ids' first insertion, the
/// notifications not yet delivered, the handles of running tasks, the events to
/// show and the handles to abort.
pub struct StoreView {
    pub tasks: Seq<(Seq<char>, TaskStateView)>,
    pub pending: Seq<(Seq<char>, TaskStateView)>,
    pub handles: Seq<(Seq<char>, u64)>,
    pub events: Seq<LifecycleView>,
    pub aborts: Seq<u64>,
}

/// Entries without the one for `id`.
pub open spec fn without<V>(entries: Seq<(Seq<char>, V)>, id: Seq<char>) -> Seq<(Seq<char>, V)> {
    match slot_of(entries, id) {
        Some(i) => entries.remove(i),
        None => entries,
    }
}

/// The store after a task has ended. A state that is no end, or an id that is not
/// remembered, changes nothing; else the task gets its cut state, its handle is
/// forgotten, a notification is queued unless one for the task already waits, and
/// the user is shown the end where there is someone to show it to.
pub open spec fn notified(s: StoreView, sink: bool, id: Seq<char>, state: TaskStateView) -> StoreView {
    let t = truncated_of(state);
    match slot_of(s.tasks, id) {
        Some(i) => if state is Running {
            s
        } else {
            StoreView {
                tasks: s.tasks.update(i, (s.tasks[i].0, t)),
                pending: if slot_of(s.pending, id) is Some {
                    s.pending
                } else {
                    s.pending.push((id, t))
                },
                handles: without(s.handles, id),
                events: if sink {
                    s.events.push(LifecycleView::Finished(id, t))
                } else {
                    s.events
                },
                aborts: s.aborts,
            }
        },
        None => s,
    }
}

/// State of a task whose session has gone.
pub open spec fn cancelled_of(s: TaskStateView) -> TaskStateView {
    if s is Running {
        TaskStateView::Failed("cancelled — session switched"@)
    } else {
        s
    }
}

/// The handles of the entries.
pub open spec fn handles_in(entries: Seq<(Seq<char>, u64)>) -> Seq<u64> {
    Seq::new(entries.len(), |i: int| entries[i].1)
}

/// The tasks with every running one cancelled.
pub open spec fn all_cancelled(tasks: Seq<(Seq<char>, TaskStateView)>) -> Seq<
    (Seq<char>, TaskStateView),
> {
    Seq::new(tasks.len(), |i: int| (tasks[i].0, cancelled_of(tasks[i].1)))
}

struct HandleEntry {
    id: String,
    handle: u64,
}

/// Store of background tasks. Tasks stay after their end so that they can be
/// looked up; past the capacity the oldest one goes.
pub struct BackgroundStore {
    tasks: Registry<BackgroundTask>,
    pending: VecDeque<TaskNotification>,
    handles: Vec<HandleEntry>,
    ui_sink: Option<LifecycleSender>,
    events: Vec<LifecycleEvent>,
    aborts: Vec<u64>,
}

spec fn tasks_view(e: Seq<(Seq<char>, BackgroundTask)>) -> Seq<(Seq<char>, TaskStateView)> {
    Seq::new(e.len(), |i: int| (e[i].0, e[i].1.state@))
}

/// Notifications as text.
pub open spec fn notices_view(e: Seq<TaskNotification>) -> Seq<(Seq<char>, TaskStateView)> {
    Seq::new(e.len(), |i: int| (e[i].id@, e[i].state@))
}

spec fn handles_view(e: Seq<HandleEntry>) -> Seq<(Seq<char>, u64)> {
    Seq::new(e.len(), |i: int| (e[i].id@, e[i].handle))
}

/// Events as text.
pub open spec fn events_view(e: Seq<LifecycleEvent>) -> Seq<LifecycleView> {
    Seq::new(e.len(), |i: int| e[i]@)
}

impl View for BackgroundStore {
    type V = StoreView;

    closed spec fn view(&self) -> StoreView {
        StoreView {
            tasks: tasks_view(self.tasks@),
            pending: notices_view(self.pending@),
            handles: handles_view(self.handles@),
            events: events_view(self.events@),
            aborts: self.aborts@,
        }
    }
}

/// The task is remembered as one that runs.
pub open spec fn is_running(tasks: Seq<(Seq<char>, TaskStateView)>, id: Seq<char>) -> bool {
    match slot_of(tasks, id) {
        Some(i) => tasks[i].1 is Running,
        None => false,
    }
}

impl BackgroundStore {
    /// Someone shows lifecycle events to the user.
    pub closed spec fn has_sink(&self) -> bool {
        self.ui_sink is Some
    }

    /// Ids are distinct among tasks, pending notifications and handles, the tasks
    /// are within the capacity, and nothing pending says that a task runs.
    pub closed spec fn wf(&self) -> bool {
        &&& self.tasks.wf()
        &&& self.tasks@.len() <= STORE_CAPACITY
        &&& distinct_ids(self@.pending)
        &&& distinct_ids(self@.handles)
        &&& forall|i: int| 0 <= i < self@.pending.len() ==> !((#[trigger] self@.pending[i]).1 is Running)
    }

    /// What holds of every store.
    pub proof fn law_store_is_consistent(&self)
        requires
            self.wf(),
        ensures
            distinct_ids(self@.tasks),
            self@.tasks.len() <= STORE_CAPACITY,
            distinct_ids(self@.pending),
            distinct_ids(self@.handles),
            forall|i: int|
                0 <= i < self@.pending.len() ==> !((#[trigger] self@.pending[i]).1 is Running),
    {
        self.tasks.lemma_wf();
        assert forall|i: int, j: int| 0 <= i < j < self@.tasks.len() implies (
        #[trigger] self@.tasks[i]).0 != (#[trigger] self@.tasks[j]).0 by {
            assert(self.tasks@[i].0 != self.tasks@[j].0);
        }
    }

    /// A store without tasks, with nobody to show events to.
    pub fn new() -> (r: BackgroundStore)
        ensures
            r.wf(),
            !r.has_sink(),
            r@.tasks.len() == 0,
            r@.pending.len() == 0,
            r@.handles.len() == 0,
            r@.events.len() == 0,
            r@.aborts.len() == 0,
    {
        BackgroundStore {
            tasks: Registry::new(),
            pending: VecDeque::new(),
            handles: Vec::new(),
            ui_sink: None,
            events: Vec::new(),
            aborts: Vec::new(),
        }
    }

    /// A store without tasks whose events go to the given channel.
    pub fn with_ui_sink(ui_sink: LifecycleSender) -> (r: BackgroundStore)
        ensures
            r.wf(),
            r.has_sink(),
            r@.tasks.len() == 0,
            r@.pending.len() == 0,
            r@.handles.len() == 0,
            r@.events.len() == 0,
            r@.aborts.len() == 0,
    {
        BackgroundStore {
            tasks: Registry::new(),
            pending: VecDeque::new(),
            handles: Vec::new(),
            ui_sink: Some(ui_sink),
            events: Vec::new(),
            aborts: Vec::new(),
        }
    }

    /// Remembers a task that has started; an id that is already remembered is reset
    /// in its place.
    pub fn insert(&mut self, id: String)
        requires
            old(self).wf(),
        ensures
            final(self).wf(),
            final(self).has_sink() == old(self).has_sink(),
            final(self)@ == (StoreView {
                tasks: put_of(
                    old(self)@.tasks,
                    id@,
                    TaskStateView::Running,
                    STORE_CAPACITY as nat,
                ),
                ..old(self)@
            }),
    {
        let ghost before = self.tasks@;
        let ghost name = id@;
        proof {
            lemma_same_slots(before, tasks_view(before), name);
            lemma_slot(before, name);
        }
        self.tasks.put(id, BackgroundTask { state: TaskState::Running }, STORE_CAPACITY);
        assert(tasks_view(self.tasks@) =~= put_of(
            tasks_view(before),
            name,
            TaskStateView::Running,
            STORE_CAPACITY as nat,
        ));
    }

    fn find(&self, id: &str) -> (r: Option<usize>)
        requires
            self.wf(),
        ensures
            match r {
                Some(i) => slot_of(self@.tasks, id@) == Some(i as int) && i < self@.tasks.len(),
                None => slot_of(self@.tasks, id@) is None,
            },
    {
        proof {
            lemma_same_slots(self.tasks@, self@.tasks, id@);
        }
        self.tasks.find(id)
    }

    fn set_state(&mut self, i: usize, state: TaskState)
        requires
            old(self).wf(),
            i < old(self)@.tasks.len(),
        ensures
            final(self).wf(),
            final(self).has_sink() == old(self).has_sink(),
            final(self)@ == (StoreView {
                tasks: old(self)@.tasks.update(
                    i as int,
                    (old(self)@.tasks[i as int].0, state@),
                ),
                ..old(self)@
            }),
    {
        let ghost before = self@.tasks;
        self.tasks.set_at(i, BackgroundTask { state });
        assert(tasks_view(self.tasks@) =~= before.update(i as int, (before[i as int].0, state@)));
    }

    /// The task under an id; nothing changes.
    pub fn get(&self, id: &str) -> (r: Option<BackgroundTask>)
        requires
            self.wf(),
        ensures
            match slot_of(self@.tasks, id@) {
                Some(i) => r is Some && r->0.state@ == self@.tasks[i].1,
                None => r is None,
            },
    {
        match self.find(id) {
            Some(i) => Some(BackgroundTask { state: self.tasks.item_at(i).state.clone() }),
            None => None,
        }
    }

    /// Number of tasks whose handle is held.
    pub fn running_count(&self) -> (r: usize)
        requires
            self.wf(),
        ensures
            r == self@.handles.len(),
    {
        self.handles.len()
    }

    /// Number of tasks that may run at the same time.
    pub fn max_concurrent() -> (r: usize)
        ensures
            r == MAX_CONCURRENT_SUBAGENTS,
    {
        MAX_CONCURRENT_SUBAGENTS
    }

    fn find_handle(&self, id: &str) -> (r: Option<usize>)
        requires
            self.wf(),
        ensures
            match r {
                Some(i) => slot_of(self@.handles, id@) == Some(i as int) && i < self@.handles.len(),
                None => slot_of(self@.handles, id@) is None,
            },
    {
        let mut i: usize = 0;
        while i < self.handles.len()
            invariant
                i <= self.handles@.len(),
                self.wf(),
                forall|k: int| 0 <= k < i ==> (#[trigger] self@.handles[k]).0 != id@,
            decreases self.handles@.len() - i,
        {
            if same(self.handles[i].id.as_str(), id) {
                proof {
                    assert(self@.handles[i as int].0 == id@);
                    lemma_slot_is(self@.handles, id@, i as int);
                }
                return Some(i);
            }
            i += 1;
        }
        proof {
            lemma_slot(self@.handles, id@);
        }
        None
    }

    fn is_pending(&self, id: &str) -> (r: bool)
        ensures
            r == (slot_of(self@.pending, id@) is Some),
    {
        let n: usize = self.pending.len();
        let mut i: usize = 0;
        proof {
            lemma_slot(self@.pending, id@);
        }
        while i < n
            invariant
                i <= n,
                n == self.pending@.len(),
                forall|k: int| 0 <= k < i ==> (#[trigger] self@.pending[k]).0 != id@,
                match slot_of(self@.pending, id@) {
                    Some(i) => 0 <= i < self@.pending.len() && self@.pending[i].0 == id@,
                    None => forall|i: int|
                        0 <= i < self@.pending.len() ==> (#[trigger] self@.pending[i]).0 != id@,
                },
            decreases n - i,
        {
            if same(self.pending[i].id.as_str(), id) {
                assert(self@.pending[i as int].0 == id@);
                return true;
            }
            i += 1;
        }
        false
    }

    /// Records the end of a task and queues a notification of it.
    pub fn notify(&mut self, id: &str, state: TaskState)
        requires
            old(self).wf(),
        ensures
            final(self).wf(),
            final(self).has_sink() == old(self).has_sink(),
            final(self)@ == notified(old(self)@, old(self).has_sink(), id@, state@),
    {
        let ghost before = self@;
        let ghost sink = self.has_sink();
        let running = match state {
            TaskState::Running => true,
            _ => false,
        };
        if running {
            return ;
        }
        let found = self.find(id);
        match found {
            None => {},
            Some(i) => {
                let cut = truncate_state(state);
                let ghost t = cut@;
                self.set_state(i, cut.clone());
                proof {
                    lemma_slot(before.tasks, id@);
                }
                match self.find_handle(id) {
                    Some(k) => {
                        let gone = self.handles.remove(k);
                        assert(handles_view(self.handles@) =~= before.handles.remove(k as int));
                    },
                    None => {},
                }
                assert(handles_view(self.handles@) == without(before.handles, id@));
                assert(distinct_ids(self@.handles));
                if !self.is_pending(id) {
                    proof {
                        lemma_slot(self@.pending, id@);
                    }
                    self.pending.push_back(
                        TaskNotification { id: id.to_owned(), state: cut.clone() },
                    );
                    assert(notices_view(self.pending@) =~= before.pending.push((id@, t)));
                    assert(distinct_ids(self@.pending));
                }
                match self.ui_sink {
                    Some(_) => {
                        self.events.push(
                            LifecycleEvent::Finished(
                                TaskNotification { id: id.to_owned(), state: cut },
                            ),
                        );
                        assert(events_view(self.events@) =~= before.events.push(
                            LifecycleView::Finished(id@, t),
                        ));
                    },
                    None => {},
                }
            },
        }
    }

    /// Holds the handle of a task that has started. Of a task that is not remembered, or
    /// that has ended already, no handle is held; an older handle of a running task is to be
    /// aborted.
    pub fn attach_handle(&mut self, id: &str, handle: u64)
        requires
            old(self).wf(),
        ensures
            final(self).wf(),
            final(self).has_sink() == old(self).has_sink(),
            final(self)@ == (if !is_running(old(self)@.tasks, id@) {
                old(self)@
            } else {
                match slot_of(old(self)@.handles, id@) {
                    Some(k) => StoreView {
                        handles: old(self)@.handles.update(
                            k,
                            (old(self)@.handles[k].0, handle),
                        ),
                        aborts: old(self)@.aborts.push(old(self)@.handles[k].1),
                        ..old(self)@
                    },
                    None => StoreView {
                        handles: old(self)@.handles.push((id@, handle)),
                        ..old(self)@
                    },
                }
            }),
    {
        let ghost before = self@;
        match self.find(id) {
            None => {},
            Some(i) => {
                match self.tasks.item_at(i).state {
                    TaskState::Running => {},
                    _ => {
                        return;
                    },
                }
                match self.find_handle(id) {
                    Some(k) => {
                        let prev: u64 = self.handles[k].handle;
                        let key = self.handles[k].id.clone();
                        self.handles.set(k, HandleEntry { id: key, handle });
                        assert(handles_view(self.handles@) =~= before.handles.update(
                            k as int,
                            (before.handles[k as int].0, handle),
                        ));
                        self.aborts.push(prev);
                        assert(distinct_ids(self@.handles));
                    },
                    None => {
                        proof {
                            lemma_slot(before.handles, id@);
                        }
                        self.handles.push(HandleEntry { id: id.to_owned(), handle });
                        assert(handles_view(self.handles@) =~= before.handles.push((id@, handle)));
                        assert(distinct_ids(self@.handles));
                    },
                }
            },
        }
    }

    /// Cancels everything that runs: all handles are to be aborted, running tasks
    /// become failed ones, and nothing stays queued.
    pub fn cancel_all(&mut self)
        requires
            old(self).wf(),
        ensures
            final(self).wf(),
            final(self).has_sink() == old(self).has_sink(),
            final(self)@ == (StoreView {
                tasks: all_cancelled(old(self)@.tasks),
                pending: Seq::empty(),
                handles: Seq::empty(),
                aborts: old(self)@.aborts + handles_in(old(self)@.handles),
                events: old(self)@.events,
            }),
    {
        let ghost before = self@;
        let ghost all = before.tasks;
        let ghost done = all_cancelled(all);
        let ghost sink = self.has_sink();
        let mut k: usize = 0;
        let m: usize = self.handles.len();
        assert(self.aborts@ =~= before.aborts + handles_in(before.handles).take(0));
        while k < m
            invariant
                k <= m,
                m == self.handles@.len(),
                self.wf(),
                self.has_sink() == sink,
                self@.tasks == before.tasks,
                self@.handles == before.handles,
                self@.events == before.events,
                self.aborts@ == before.aborts + handles_in(before.handles).take(k as int),
            decreases m - k,
        {
            let h: u64 = self.handles[k].handle;
            self.aborts.push(h);
            proof {
                let hs = handles_in(before.handles);
                assert(before.handles[k as int].1 == h);
                assert(hs.take(k + 1) =~= hs.take(k as int).push(h));
                assert(self.aborts@ =~= before.aborts + hs.take(k + 1));
            }
            k += 1;
        }
        assert(handles_in(before.handles).take(k as int) =~= handles_in(before.handles));
        self.handles.clear();
        self.pending.clear();
        assert(handles_view(self.handles@) =~= Seq::empty());
        assert(notices_view(self.pending@) =~= Seq::empty());
        let n: usize = self.tasks.len();
        let mut i: usize = 0;
        assert(self@.tasks =~= done.take(0) + all.skip(0));
        while i < n
            invariant
                i <= n,
                n == all.len(),
                self.wf(),
                self.has_sink() == sink,
                done == all_cancelled(all),
                self@.tasks == done.take(i as int) + all.skip(i as int),
                self@.pending == Seq::<(Seq<char>, TaskStateView)>::empty(),
                self@.handles == Seq::<(Seq<char>, u64)>::empty(),
                self@.events == before.events,
                self@.aborts == before.aborts + handles_in(before.handles),
            decreases n - i,
        {
            let ghost mid = self@.tasks;
            assert(mid.len() == n && mid.len() == self.tasks@.len());
            assert(mid[i as int] == all[i as int]);
            let task = self.tasks.item_at(i);
            assert(task.state@ == all[i as int].1);
            let running = match &task.state {
                TaskState::Running => true,
                _ => false,
            };
            if running {
                self.set_state(i, TaskState::Failed("cancelled — session switched".to_owned()));
            }
            assert(self@.tasks =~= done.take(i + 1) + all.skip(i + 1));
            i += 1;
        }
        assert(self@.tasks =~= done);
    }

    /// Shows the user that a task has started, where there is someone to show it to.
    pub fn notify_started(&mut self, id: &str)
        requires
            old(self).wf(),
        ensures
            final(self).wf(),
            final(self).has_sink() == old(self).has_sink(),
            final(self)@ == (if old(self).has_sink() {
                StoreView {
                    events: old(self)@.events.push(LifecycleView::Started(id@)),
                    ..old(self)@
                }
            } else {
                old(self)@
            }),
    {
        let ghost before = self@;
        match self.ui_sink {
            Some(_) => {
                self.events.push(LifecycleEvent::Started { id: id.to_owned() });
                assert(events_view(self.events@) =~= before.events.push(
                    LifecycleView::Started(id@),
                ));
            },
            None => {},
        }
    }

    /// Hands out all queued notifications, the oldest first; none is left.
    pub fn drain_notifications(&mut self) -> (r: Vec<TaskNotification>)
        requires
            old(self).wf(),
        ensures
            final(self).wf(),
            final(self).has_sink() == old(self).has_sink(),
            notices_view(r@) == old(self)@.pending,
            final(self)@ == (StoreView { pending: Seq::empty(), ..old(self)@ }),
    {
        let ghost before = self@;
        let ghost sink = self.has_sink();
        let mut out: Vec<TaskNotification> = Vec::new();
        assert(before.pending.skip(0) =~= before.pending);
        assert(notices_view(out@) =~= before.pending.take(0));
        while self.pending.len() > 0
            invariant
                self.wf(),
                self.has_sink() == sink,
                self@.tasks == before.tasks,
                self@.handles == before.handles,
                self@.events == before.events,
                self@.aborts == before.aborts,
                out@.len() <= before.pending.len(),
                notices_view(out@) == before.pending.take(out@.len() as int),
                self@.pending == before.pending.skip(out@.len() as int),
            decreases self.pending@.len(),
        {
            let ghost k = out@.len() as int;
            let ghost mid = self@.pending;
            let ghost queue = self.pending@;
            match self.pending.pop_front() {
                Some(n) => {
                    assert(self.pending@ == queue.subrange(1, queue.len() as int));
                    assert(self@.pending =~= mid.skip(1));
                    assert(mid.skip(1) =~= before.pending.skip(k + 1));
                    assert(mid[0] == (n.id@, n.state@));
                    assert(before.pending[k] == mid[0]);
                    out.push(n);
                    assert(notices_view(out@) =~= before.pending.take(k + 1));
                    assert(self@.pending =~= before.pending.skip(k + 1));
                    assert forall|i: int, j: int| 0 <= i < j < self@.pending.len() implies (
                    #[trigger] self@.pending[i]).0 != (#[trigger] self@.pending[j]).0 by {
                        assert(mid[i + 1].0 != mid[j + 1].0);
                    }
                    assert forall|i: int| 0 <= i < self@.pending.len() implies !((
                    #[trigger] self@.pending[i]).1 is Running) by {
                        assert(!(mid[i + 1].1 is Running));
                    }
                },
                None => {},
            }
        }
        assert(self@.pending.len() == 0);
        assert(before.pending.take(out@.len() as int) =~= before.pending);
        assert(self@.pending =~= Seq::empty());
        out
    }

    /// Hands out the events to show to the user.
    pub fn take_events(&mut self) -> (r: Vec<LifecycleEvent>)
        requires
            old(self).wf(),
        ensures
            final(self).wf(),
            final(self).has_sink() == old(self).has_sink(),
            events_view(r@) == old(self)@.events,
            final(self)@ == (StoreView { events: Seq::empty(), ..old(self)@ }),
    {
        let ghost before = self.events@;
        let mut out: Vec<LifecycleEvent> = Vec::new();
        out.append(&mut self.events);
        assert(out@ =~= before);
        assert(events_view(self.events@) =~= Seq::empty());
        out
    }

    /// Hands out the handles of tasks that are to be aborted.
    pub fn take_aborts(&mut self) -> (r: Vec<u64>)
        requires
            old(self).wf(),
        ensures
            final(self).wf(),
            final(self).has_sink() == old(self).has_sink(),
            r@ == old(self)@.aborts,
            final(self)@ == (StoreView { aborts: Seq::empty(), ..old(self)@ }),
    {
        let mut out: Vec<u64> = Vec::new();
        out.append(&mut self.aborts);
        assert(out@ =~= old(self)@.aborts);
        assert(self.aborts@ =~= Seq::empty());
        out
    }

    /// Number of remembered tasks.
    pub fn len(&self) -> (r: usize)
        requires
            self.wf(),
        ensures
            r == self@.tasks.len(),
    {
        self.tasks.len()
    }

    /// Number of queued notifications.
    pub fn pending_len(&self) -> (r: usize)
        ensures
            r == self@.pending.len(),
    {
        self.pending.len()
    }
}

/// The paragraph on a finished task.
pub open spec fn notice_text(n: (Seq<char>, TaskStateView)) -> Seq<char> {
    match n.1 {
        TaskStateView::Completed(text) => "Task "@ + n.0 + " (completed):\n"@ + text + "\n"@,
        TaskStateView::Failed(err) => "Task "@ + n.0 + " (failed):\n"@ + err + "\n"@,
        TaskStateView::Running => ""@,
    }
}

/// The paragraphs on finished tasks, with an empty line between neighbours.
pub open spec fn notices_text(ns: Seq<(Seq<char>, TaskStateView)>) -> Seq<char>
    decreases ns.len(),
{
    if ns.len() == 0 {
        Seq::empty()
    } else {
        notices_text(ns.drop_last()) + (if ns.len() > 1 {
            "\n"@
        } else {
            ""@
        }) + notice_text(ns.last())
    }
}

/// A prompt with the reminder of finished tasks in front.
pub open spec fn with_reminder(prompt: Seq<char>, ns: Seq<(Seq<char>, TaskStateView)>) -> Seq<char> {
    if ns.len() == 0 {
        prompt
    } else {
        "<system-reminder>\n"@ + "The following background tasks finished since your last turn:\n\n"@
            + notices_text(ns) + "</system-reminder>\n\n"@ + prompt
    }
}

fn describe_notice(n: &TaskNotification) -> (r: String)
    ensures
        r@ == notice_text((n.id@, n.state@)),
{
    let mut out = String::new();
    match &n.state {
        TaskState::Completed(text) => {
            out.append("Task ");
            out.append(n.id.as_str());
            out.append(" (completed):\n");
            out.append(text.as_str());
            out.append("\n");
        },
        TaskState::Failed(err) => {
            out.append("Task ");
            out.append(n.id.as_str());
            out.append(" (failed):\n");
            out.append(err.as_str());
            out.append("\n");
        },
        TaskState::Running => {
            out = "".to_owned();
        },
    }
    out
}

/// The prompt with a reminder of the given finished tasks in front.
pub fn prepend_notifications(prompt: &str, ns: &Vec<TaskNotification>) -> (r: String)
    ensures
        r@ == with_reminder(prompt@, notices_view(ns@)),
{
    let ghost all = notices_view(ns@);
    if ns.len() == 0 {
        return prompt.to_owned();
    }
    let mut body = String::new();
    let mut i: usize = 0;
    assert(all.take(0) =~= Seq::empty());
    while i < ns.len()
        invariant
            i <= ns@.len(),
            all == notices_view(ns@),
            body@ == notices_text(all.take(i as int)),
        decreases ns@.len() - i,
    {
        proof {
            assert(all.take(i + 1).drop_last() =~= all.take(i as int));
            assert(all.take(i + 1).last() == all[i as int]);
        }
        body.append(
            if i > 0 {
                "\n"
            } else {
                ""
            },
        );
        let p = describe_notice(&ns[i]);
        body.append(p.as_str());
        i += 1;
    }
    assert(all.take(i as int) =~= all);
    let mut out = String::new();
    out.append("<system-reminder>\n");
    out.append("The following background tasks finished since your last turn:\n\n");
    out.append(body.as_str());
    out.append("</system-reminder>\n\n");
    out.append(prompt);
    out
}

/// The prompt with a reminder of the tasks that finished since the last turn; the
/// reminder is given once.
pub fn prepend_pending_notifications(prompt: &str, store: Option<&mut BackgroundStore>) -> (r: String)
    requires
        store matches Some(s) ==> s.wf(),
    ensures
        match store {
            Some(s) => {
                &&& r@ == with_reminder(prompt@, s@.pending)
                &&& final(s).wf()
                &&& final(s)@ == (StoreView { pending: Seq::empty(), ..s@ })
            },
            None => r@ == prompt@,
        },
{
    match store {
        None => prompt.to_owned(),
        Some(s) => {
            let drained = s.drain_notifications();
            prepend_notifications(prompt, &drained)
        },
    }
}

/// Telling the end of a task twice queues one notification, and the later state is
/// the one looked up.
pub proof fn law_double_notify(
    s: StoreView,
    sink: bool,
    id: Seq<char>,
    first: TaskStateView,
    second: TaskStateView,
)
    requires
        distinct_ids(s.tasks),
        slot_of(s.tasks, id) is Some,
        slot_of(s.pending, id) is None,
        !(first is Running),
        !(second is Running),
    ensures
        ({
            let once = notified(s, sink, id, first);
            let twice = notified(once, sink, id, second);
            &&& twice.pending == s.pending.push((id, truncated_of(first)))
            &&& slot_of(twice.tasks, id) == slot_of(s.tasks, id)
            &&& twice.tasks[slot_of(s.tasks, id)->0].1 == truncated_of(second)
        }),
{
    let i = slot_of(s.tasks, id)->0;
    lemma_slot(s.tasks, id);
    let once = notified(s, sink, id, first);
    assert(distinct_ids(once.tasks));
    lemma_slot_is(once.tasks, id, i);
    lemma_slot(s.pending, id);
    assert(once.pending.last().0 == id);
    assert(slot_of(once.pending, id) is Some);
    let twice = notified(once, sink, id, second);
    assert(distinct_ids(twice.tasks));
    lemma_slot_is(twice.tasks, id, i);
}

/// What the model is to be told of finished tasks: the id of each and its answer or error.
pub open spec fn ends_of(ns: Seq<(Seq<char>, TaskStateView)>) -> Seq<Seq<char>>
    decreases ns.len(),
{
    if ns.len() == 0 {
        Seq::empty()
    } else {
        let before = ends_of(ns.drop_last());
        match ns.last().1 {
            TaskStateView::Completed(t) => before.push(ns.last().0).push(t),
            TaskStateView::Failed(e) => before.push(ns.last().0).push(e),
            TaskStateView::Running => before,
        }
    }
}

proof fn lemma_notices_tell(ns: Seq<(Seq<char>, TaskStateView)>)
    ensures
        in_order(notices_text(ns), ends_of(ns)),
    decreases ns.len(),
{
    if ns.len() == 0 {
        lemma_in_order_none(notices_text(ns));
    } else {
        let front = ns.drop_last();
        lemma_notices_tell(front);
        let gap = if ns.len() > 1 {
            "\n"@
        } else {
            ""@
        };
        let a = notices_text(front) + gap;
        let ps = ends_of(front);
        let n = ns.last();
        let none = Seq::<Seq<char>>::empty();
        lemma_in_order_more(notices_text(front), ps, gap);
        let t = match n.1 {
            TaskStateView::Completed(t) => t,
            TaskStateView::Failed(e) => e,
            TaskStateView::Running => ""@,
        };
        let w = match n.1 {
            TaskStateView::Completed(_) => " (completed):\n"@,
            _ => " (failed):\n"@,
        };
        lemma_in_order_none("Task "@);
        lemma_in_order_next("Task "@, none, n.0);
        lemma_in_order_more("Task "@ + n.0, none.push(n.0), w);
        lemma_in_order_next("Task "@ + n.0 + w, none.push(n.0), t);
        lemma_in_order_more("Task "@ + n.0 + w + t, none.push(n.0).push(t), "\n"@);
        if n.1 is Running {
            lemma_in_order_more(a, ps, ""@);
        } else {
            lemma_in_order_concat(a, notice_text(n), ps, none.push(n.0).push(t));
            assert(ps + none.push(n.0).push(t) =~= ends_of(ns));
        }
    }
}

/// The model is told of every task that finished: the prompt with its reminder holds the id and
/// the answer or error of each, in their order, and behind all of them the prompt itself as it
/// was; where no task finished the prompt is unchanged.
pub proof fn law_reminder_tells_of_every_end(prompt: Seq<char>, ns: Seq<(Seq<char>, TaskStateView)>)
    ensures
        ns.len() == 0 ==> with_reminder(prompt, ns) == prompt,
        in_order(with_reminder(prompt, ns), ends_of(ns).push(prompt)),
        with_reminder(prompt, ns).skip(with_reminder(prompt, ns).len() - prompt.len()) == prompt,
{
    if ns.len() == 0 {
        lemma_in_order_itself(prompt);
        assert(ends_of(ns).push(prompt) =~= seq![prompt]);
        assert(prompt.skip(0) =~= prompt);
    } else {
        let a = "<system-reminder>\n"@ + "The following background tasks finished since your last turn:\n\n"@;
        let z = "</system-reminder>\n\n"@;
        lemma_notices_tell(ns);
        lemma_in_order_around(a, notices_text(ns), z, ends_of(ns));
        let b = a + notices_text(ns) + z;
        lemma_in_order_next(b, ends_of(ns), prompt);
        assert((b + prompt).skip(b.len() as int) =~= prompt);
    }
}

/// The end of a task that is remembered is recorded, queued and, where there is someone to show
/// it to, shown, with the first characters of its text; no other task changes, and what was
/// queued before stays queued before it.
pub proof fn law_ends_are_recorded(s: StoreView, sink: bool, id: Seq<char>, state: TaskStateView, i: int)
    requires
        slot_of(s.tasks, id) == Some(i),
        0 <= i < s.tasks.len(),
        slot_of(s.pending, id) is None,
        !(state is Running),
    ensures
        ({
            let t = notified(s, sink, id, state);
            let text = match state {
                TaskStateView::Completed(x) => x,
                TaskStateView::Failed(x) => x,
                TaskStateView::Running => ""@,
            };
            let cut = if text.len() <= MAX_TASK_OUTPUT_CHARS {
                text
            } else {
                text.take(MAX_TASK_OUTPUT_CHARS as int)
            };
            let end = if state is Completed {
                TaskStateView::Completed(cut)
            } else {
                TaskStateView::Failed(cut)
            };
            &&& t.tasks.len() == s.tasks.len()
            &&& t.tasks[i].1 == end
            &&& forall|k: int| 0 <= k < s.tasks.len() && k != i ==> #[trigger] t.tasks[k] == s.tasks[k]
            &&& forall|k: int| 0 <= k < s.tasks.len() ==> (#[trigger] t.tasks[k]).0 == s.tasks[k].0
            &&& t.pending == s.pending.push((id, end))
            &&& sink ==> t.events == s.events.push(LifecycleView::Finished(id, end))
            &&& !sink ==> t.events == s.events
            &&& t.aborts == s.aborts
        }),
{
}

/// When a session is left, every task that still ran has failed and all others are as they
/// were; none is forgotten.
pub proof fn law_leaving_cancels_what_runs(tasks: Seq<(Seq<char>, TaskStateView)>, i: int)
    requires
        0 <= i < tasks.len(),
    ensures
        all_cancelled(tasks).len() == tasks.len(),
        all_cancelled(tasks)[i].0 == tasks[i].0,
        tasks[i].1 is Running ==> all_cancelled(tasks)[i].1 is Failed,
        !(tasks[i].1 is Running) ==> all_cancelled(tasks)[i].1 == tasks[i].1,
{
}

} // verus!
