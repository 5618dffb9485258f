//! The download queue: requested sounds wait in order, and one at a time is
//! handed to a worker whose events move it to a final state.

use vstd::prelude::*;

verus! {

/// Full progress: progress counts hundredths of a percent.
pub const PERCENT_FULL: u32 = 10000;

/// Where a download stands.
pub enum DownloadStatus {
    Pending,
    /// Running, with its progress in hundredths of a percent.
    Downloading(u32),
    Done,
    Error(String),
}

/// A requested sound and where its download stands.
pub struct DownloadTask {
    pub name: String,
    pub category: String,
    pub icon: String,
    pub url: String,
    pub status: DownloadStatus,
}

/// What a worker reports about its download.
pub enum DownloadEvent {
    /// Progress in hundredths of a percent.
    Progress(u32),
    /// Finished: name, category, file path, icon, url.
    Success(String, String, String, String, String),
    /// Failed, with a reason a person can read.
    Error(String),
}

pub enum StatusView {
    Pending,
    Downloading(u32),
    Done,
    Error(Seq<char>),
}

impl StatusView {
    /// A final state: the task is kept for display and never moves again.
    pub open spec fn is_resolved(self) -> bool {
        self is Done || self is Error
    }
}

pub struct TaskView {
    pub name: Seq<char>,
    pub category: Seq<char>,
    pub icon: Seq<char>,
    pub url: Seq<char>,
    pub status: StatusView,
}

impl TaskView {
    pub open spec fn with_status(self, status: StatusView) -> TaskView {
        TaskView { status, ..self }
    }

    /// The two tasks are the same request.
    pub open spec fn same_request(self, other: TaskView) -> bool {
        &&& self.name == other.name
        &&& self.category == other.category
        &&& self.icon == other.icon
        &&& self.url == other.url
    }
}

pub enum EventView {
    Progress(u32),
    Success,
    Error(Seq<char>),
}

impl View for DownloadStatus {
    type V = StatusView;

    open spec fn view(&self) -> StatusView {
        match self {
            DownloadStatus::Pending => StatusView::Pending,
            DownloadStatus::Downloading(p) => StatusView::Downloading(*p),
            DownloadStatus::Done => StatusView::Done,
            DownloadStatus::Error(m) => StatusView::Error(m@),
        }
    }
}

impl View for DownloadTask {
    type V = TaskView;

    open spec fn view(&self) -> TaskView {
        TaskView {
            name: self.name@,
            category: self.category@,
            icon: self.icon@,
            url: self.url@,
            status: self.status@,
        }
    }
}

impl View for DownloadEvent {
    type V = EventView;

    open spec fn view(&self) -> EventView {
        match self {
            DownloadEvent::Progress(p) => EventView::Progress(*p),
            DownloadEvent::Success(..) => EventView::Success,
            DownloadEvent::Error(m) => EventView::Error(m@),
        }
    }
}

/// The reason given to a download whose worker went away without a final event.
pub open spec fn disconnected_reason() -> Seq<char> {
    "Thread disconnected"@
}

/// The index of the earliest pending task.
pub open spec fn first_pending(tasks: Seq<TaskView>) -> Option<int>
    decreases tasks.len(),
{
    if tasks.len() == 0 {
        None
    } else {
        match first_pending(tasks.drop_last()) {
            Some(i) => Some(i),
            None => if tasks.last().status is Pending {
                Some(tasks.len() - 1)
            } else {
                None
            },
        }
    }
}

pub proof fn lemma_first_pending(tasks: Seq<TaskView>)
    ensures
        match first_pending(tasks) {
            Some(i) => 0 <= i < tasks.len() && tasks[i].status is Pending && forall|j: int|
                0 <= j < i ==> !(tasks[j].status is Pending),
            None => forall|j: int| 0 <= j < tasks.len() ==> !(tasks[j].status is Pending),
        },
    decreases tasks.len(),
{
    if tasks.len() > 0 {
        lemma_first_pending(tasks.drop_last());
        assert forall|j: int| 0 <= j < tasks.len() - 1 implies tasks.drop_last()[j] == tasks[j] by {}
    }
}

/// The queue as a mathematical value: its tasks in order, and the task being downloaded.
pub struct QueueView {
    pub tasks: Seq<TaskView>,
    pub active: Option<int>,
}

impl QueueView {
    /// The active index names the one downloading task; no other downloads.
    pub open spec fn wf(self) -> bool {
        &&& self.active matches Some(i) ==> 0 <= i < self.tasks.len()
            && self.tasks[i].status is Downloading
        &&& forall|j: int|
            0 <= j < self.tasks.len() && (#[trigger] self.tasks[j]).status is Downloading
                ==> self.active == Some(j)
    }

    pub open spec fn enqueue(self, t: TaskView) -> QueueView {
        QueueView { tasks: self.tasks.push(t.with_status(StatusView::Pending)), ..self }
    }

    /// Admission: with nothing active, the earliest pending task starts at no progress.
    pub open spec fn admit_next(self) -> QueueView {
        if self.active is None {
            match first_pending(self.tasks) {
                Some(i) => QueueView {
                    tasks: self.tasks.update(i, self.tasks[i].with_status(StatusView::Downloading(0))),
                    active: Some(i),
                },
                None => self,
            }
        } else {
            self
        }
    }

    /// A worker's event reaches the active task.
    pub open spec fn apply(self, e: EventView) -> QueueView {
        match self.active {
            None => self,
            Some(i) => match e {
                EventView::Progress(p) => QueueView {
                    tasks: self.tasks.update(i, self.tasks[i].with_status(StatusView::Downloading(p))),
                    active: Some(i),
                },
                EventView::Success => QueueView {
                    tasks: self.tasks.update(i, self.tasks[i].with_status(StatusView::Done)),
                    active: None,
                },
                EventView::Error(m) => QueueView {
                    tasks: self.tasks.update(i, self.tasks[i].with_status(StatusView::Error(m))),
                    active: None,
                },
            },
        }
    }

    /// The active worker went away without a final event.
    pub open spec fn disconnect(self) -> QueueView {
        self.apply(EventView::Error(disconnected_reason()))
    }
}

/// The download queue, with at most one task downloading.
pub struct DownloadQueue {
    tasks: Vec<DownloadTask>,
    active: Option<usize>,
}

impl View for DownloadQueue {
    type V = QueueView;

    closed spec fn view(&self) -> QueueView {
        QueueView {
            tasks: self.tasks@.map_values(|t: DownloadTask| t@),
            active: match self.active {
                Some(i) => Some(i as int),
                None => None,
            },
        }
    }
}

impl DownloadQueue {
    pub closed spec fn inv(self) -> bool {
        self@.wf()
    }

    /// An empty queue.
    pub fn new() -> (r: DownloadQueue)
        ensures
            r.inv(),
            r@.tasks.len() == 0,
            r@.active is None,
    {
        let r = DownloadQueue { tasks: Vec::new(), active: None };
        assert(r@.tasks =~= Seq::<TaskView>::empty());
        r
    }

    /// The tasks, in the order they were requested.
    pub fn tasks(&self) -> (r: &Vec<DownloadTask>)
        ensures
            r@.map_values(|t: DownloadTask| t@) == self@.tasks,
    {
        &self.tasks
    }

    /// The index of the task being downloaded, if any.
    pub fn active_index(&self) -> (r: Option<usize>)
        ensures
            match r {
                Some(i) => self@.active == Some(i as int),
                None => self@.active is None,
            },
    {
        self.active
    }

    /// Appends a pending request for the sound.
    pub fn enqueue(&mut self, name: String, category: String, icon: String, url: String)
        requires
            old(self).inv(),
        ensures
            final(self).inv(),
            final(self)@ == old(self)@.enqueue(
                TaskView {
                    name: name@,
                    category: category@,
                    icon: icon@,
                    url: url@,
                    status: StatusView::Pending,
                },
            ),
    {
        let ghost before = self@;
        let t = DownloadTask { name, category, icon, url, status: DownloadStatus::Pending };
        self.tasks.push(t);
        assert(self@.tasks =~= before.tasks.push(t@));
    }

    /// With no task active, starts the earliest pending one at no progress and
    /// returns its index: the caller hands that task to a worker.
    pub fn admit_next(&mut self) -> (r: Option<usize>)
        requires
            old(self).inv(),
        ensures
            final(self).inv(),
            final(self)@ == old(self)@.admit_next(),
            match r {
                Some(i) => old(self)@.active is None && first_pending(old(self)@.tasks) == Some(
                    i as int,
                ),
                None => old(self)@.active is Some || first_pending(old(self)@.tasks) is None,
            },
    {
        let ghost before = self@;
        if self.active.is_some() {
            return None;
        }
        proof {
            lemma_first_pending(before.tasks);
        }
        let mut i: usize = 0;
        while i < self.tasks.len()
            invariant
                self@ == before,
                old(self)@ == before,
                before.wf(),
                self.active is None,
                i <= self.tasks.len(),
                forall|j: int| 0 <= j < i ==> !(before.tasks[j].status is Pending),
            decreases self.tasks.len() - i,
        {
            let pending = match self.tasks[i].status {
                DownloadStatus::Pending => true,
                _ => false,
            };
            assert(before.tasks[i as int] == self.tasks@[i as int]@);
            if pending {
                proof {
                    lemma_first_pending(before.tasks);
                    match first_pending(before.tasks) {
                        Some(f) => {
                            if f < i {
                                assert(!(before.tasks[f].status is Pending));
                            }
                            assert(f == i);
                        },
                        None => {
                            assert(!(before.tasks[i as int].status is Pending));
                        },
                    }
                    assert(first_pending(before.tasks) == Some(i as int));
                }
                let t = DownloadTask {
                    name: self.tasks[i].name.clone(),
                    category: self.tasks[i].category.clone(),
                    icon: self.tasks[i].icon.clone(),
                    url: self.tasks[i].url.clone(),
                    status: DownloadStatus::Downloading(0),
                };
                self.tasks.set(i, t);
                self.active = Some(i);
                assert(self@.tasks =~= before.admit_next().tasks);
                return Some(i);
            }
            i = i + 1;
        }
        None
    }

    /// Moves the active task to `status`; a final status clears the active slot.
    fn set_active_status(&mut self, i: usize, status: DownloadStatus)
        requires
            old(self).inv(),
            old(self).active == Some(i),
        ensures
            final(self)@.tasks == old(self)@.tasks.update(
                i as int,
                old(self)@.tasks[i as int].with_status(status@),
            ),
            final(self).active == (if status is Downloading {
                Some(i)
            } else {
                None
            }),
    {
        let ghost before = self@;
        let downloading = match status {
            DownloadStatus::Downloading(_) => true,
            _ => false,
        };
        let t = DownloadTask {
            name: self.tasks[i].name.clone(),
            category: self.tasks[i].category.clone(),
            icon: self.tasks[i].icon.clone(),
            url: self.tasks[i].url.clone(),
            status,
        };
        self.tasks.set(i, t);
        if !downloading {
            self.active = None;
        }
        assert(self@.tasks =~= before.tasks.update(i as int, before.tasks[i as int].with_status(t.status@)));
    }

    /// Applies a worker's event to the active task: progress updates it,
    /// success marks it done and failure marks it failed, each of these two
    /// clearing the active slot. With no active task nothing changes.
    pub fn apply_event(&mut self, e: &DownloadEvent)
        requires
            old(self).inv(),
        ensures
            final(self).inv(),
            final(self)@ == old(self)@.apply(e@),
    {
        let ghost before = self@;
        match self.active {
            None => {},
            Some(i) => {
                let status = match e {
                    DownloadEvent::Progress(p) => DownloadStatus::Downloading(*p),
                    DownloadEvent::Success(..) => DownloadStatus::Done,
                    DownloadEvent::Error(m) => DownloadStatus::Error(m.clone()),
                };
                self.set_active_status(i, status);
                assert(self@.tasks =~= before.apply(e@).tasks);
            },
        }
    }

    /// The active worker went away without a final event: its task fails.
    pub fn disconnect(&mut self)
        requires
            old(self).inv(),
        ensures
            final(self).inv(),
            final(self)@ == old(self)@.disconnect(),
    {
        let ghost before = self@;
        match self.active {
            None => {},
            Some(i) => {
                let reason = String::from_str("Thread disconnected");
                self.set_active_status(i, DownloadStatus::Error(reason));
                assert(self@.tasks =~= before.disconnect().tasks);
            },
        }
    }
}

/// One operation on the queue.
pub enum QueueOp {
    Enqueue(TaskView),
    AdmitNext,
    Apply(EventView),
    Disconnect,
}

impl QueueView {
    pub open spec fn step(self, op: QueueOp) -> QueueView {
        match op {
            QueueOp::Enqueue(t) => self.enqueue(t),
            QueueOp::AdmitNext => self.admit_next(),
            QueueOp::Apply(e) => self.apply(e),
            QueueOp::Disconnect => self.disconnect(),
        }
    }
}

/// The queue after a sequence of operations, applied in order.
pub open spec fn run_ops(q: QueueView, ops: Seq<QueueOp>) -> QueueView
    decreases ops.len(),
{
    if ops.len() == 0 {
        q
    } else {
        run_ops(q, ops.drop_last()).step(ops.last())
    }
}

/// A well-formed queue has at most one task downloading.
pub proof fn lemma_single_download(q: QueueView)
    requires
        q.wf(),
    ensures
        forall|i: int, j: int|
            0 <= i < q.tasks.len() && 0 <= j < q.tasks.len() && (#[trigger] q.tasks[i]).status is Downloading
                && (#[trigger] q.tasks[j]).status is Downloading ==> i == j,
{
}

/// Each operation keeps the queue well formed, keeps every task's request at
/// its place, and leaves a resolved task as it is.
pub proof fn lemma_step(q: QueueView, op: QueueOp)
    requires
        q.wf(),
    ensures
        q.step(op).wf(),
        q.step(op).tasks.len() >= q.tasks.len(),
        forall|i: int|
            0 <= i < q.tasks.len() ==> (#[trigger] q.step(op).tasks[i]).same_request(q.tasks[i]),
        forall|i: int|
            0 <= i < q.tasks.len() && (#[trigger] q.tasks[i]).status.is_resolved() ==> q.step(
                op,
            ).tasks[i] == q.tasks[i],
{
    lemma_first_pending(q.tasks);
    let r = q.step(op);
    match op {
        QueueOp::Enqueue(t) => {
            assert forall|j: int|
                0 <= j < r.tasks.len() && (#[trigger] r.tasks[j]).status is Downloading implies r.active
                == Some(j) by {
                if j < q.tasks.len() {
                    assert(r.tasks[j] == q.tasks[j]);
                }
            }
        },
        _ => {},
    }
}

/// Whatever operations run, at most one task downloads at any time; the
/// requests keep their order, and resolved tasks stay as they are.
pub proof fn lemma_run_ops(q: QueueView, ops: Seq<QueueOp>)
    requires
        q.wf(),
    ensures
        run_ops(q, ops).wf(),
        forall|i: int, j: int|
            0 <= i < run_ops(q, ops).tasks.len() && 0 <= j < run_ops(q, ops).tasks.len()
                && (#[trigger] run_ops(q, ops).tasks[i]).status is Downloading && (#[trigger] run_ops(
                q,
                ops,
            ).tasks[j]).status is Downloading ==> i == j,
        run_ops(q, ops).tasks.len() >= q.tasks.len(),
        forall|i: int|
            0 <= i < q.tasks.len() ==> (#[trigger] run_ops(q, ops).tasks[i]).same_request(q.tasks[i]),
        forall|i: int|
            0 <= i < q.tasks.len() && (#[trigger] q.tasks[i]).status.is_resolved() ==> run_ops(
                q,
                ops,
            ).tasks[i] == q.tasks[i],
    decreases ops.len(),
{
    if ops.len() > 0 {
        let p = run_ops(q, ops.drop_last());
        lemma_run_ops(q, ops.drop_last());
        lemma_step(p, ops.last());
        assert forall|i: int|
            0 <= i < q.tasks.len() implies (#[trigger] run_ops(q, ops).tasks[i]).same_request(
            q.tasks[i],
        ) by {
            assert(p.step(ops.last()).tasks[i].same_request(p.tasks[i]));
        }
        assert forall|i: int|
            0 <= i < q.tasks.len() && (#[trigger] q.tasks[i]).status.is_resolved() implies run_ops(
            q,
            ops,
        ).tasks[i] == q.tasks[i] by {
            assert(p.tasks[i] == q.tasks[i]);
        }
    }
    lemma_single_download(run_ops(q, ops));
}

/// Tasks start in the order they were requested: when a task is admitted,
/// every task before it has already finished or failed.
pub proof fn lemma_admits_in_order(q: QueueView)
    requires
        q.wf(),
        q.active is None,
    ensures
        q.admit_next().active matches Some(i) ==> forall|j: int|
            0 <= j < i ==> (#[trigger] q.tasks[j]).status.is_resolved(),
{
    lemma_first_pending(q.tasks);
}

} // verus!
