//! Background shells: commands that run detached, the output they have produced
//! since it was last read, and how they ended.
use vstd::prelude::*;
use crate::platform::{quoted, quoted_of};
use crate::registry::{distinct_ids, lemma_same_slots, lemma_slot, put_of, slot_of, Registry};
use crate::text::{
    byte_len, fit, fit_of, in_order, lemma_byte_len_concat, lemma_fit, lemma_in_order_more,
    lemma_in_order_next, lemma_in_order_none, lemma_occurs_between, occurs, signed, signed_of, size,
};

verus! {

/// Bytes of unread output that a shell may pile up.
pub const MAX_UNREAD_BYTES: usize = 1048576;

/// Number of shells that are remembered.
pub const SHELL_STORE_CAPACITY: usize = 32;

/// Number of shells that may run at the same time.
pub const MAX_CONCURRENT_SHELLS: usize = 8;

/// State of a background shell.
#[derive(Debug, PartialEq)]
pub enum ShellStatus {
    Running,
    Exited(i32),
    /// Stopped on request or with its session.
    Killed,
    /// Could not be started or followed; carries the reason.
    Failed(String),
}

/// State of a background shell, its reason as text.
pub enum ShellStatusView {
    Running,
    Exited(int),
    Killed,
    Failed(Seq<char>),
}

impl View for ShellStatus {
    type V = ShellStatusView;

    open spec fn view(&self) -> ShellStatusView {
        match self {
            ShellStatus::Running => ShellStatusView::Running,
            ShellStatus::Exited(code) => ShellStatusView::Exited(*code as int),
            ShellStatus::Killed => ShellStatusView::Killed,
            ShellStatus::Failed(e) => ShellStatusView::Failed(e@),
        }
    }
}

impl Clone for ShellStatus {
    fn clone(&self) -> (r: Self)
        ensures
            r@ == self@,
    {
        match self {
            ShellStatus::Running => ShellStatus::Running,
            ShellStatus::Exited(code) => ShellStatus::Exited(*code),
            ShellStatus::Killed => ShellStatus::Killed,
            ShellStatus::Failed(e) => ShellStatus::Failed(e.clone()),
        }
    }
}

/// One-word name of a state.
pub open spec fn label_of(s: ShellStatusView) -> Seq<char> {
    match s {
        ShellStatusView::Running => "running"@,
        ShellStatusView::Exited(code) => "exited("@ + signed_of(code) + ")"@,
        ShellStatusView::Killed => "killed"@,
        ShellStatusView::Failed(e) => "failed: "@ + e,
    }
}

impl ShellStatus {
    /// Whether the shell still runs.
    pub fn is_running(&self) -> (r: bool)
        ensures
            r == (self@ is Running),
    {
        match self {
            ShellStatus::Running => true,
            _ => false,
        }
    }

    /// One-word name of the state.
    pub fn label(&self) -> (r: String)
        ensures
            r@ == label_of(self@),
    {
        match self {
            ShellStatus::Running => "running".to_owned(),
            ShellStatus::Exited(code) => {
                let mut out = String::new();
                out.append("exited(");
                let n = signed(*code as i64);
                out.append(n.as_str());
                out.append(")");
                out
            },
            ShellStatus::Killed => "killed".to_owned(),
            ShellStatus::Failed(e) => {
                let mut out = String::new();
                out.append("failed: ");
                out.append(e.as_str());
                out
            },
        }
    }
}

/// One row of the listing of shells.
#[derive(Debug, PartialEq)]
pub struct ShellInfo {
    pub id: String,
    pub command: String,
    pub status: ShellStatus,
}

/// What is kept of a shell.
struct ShellEntry {
    command: String,
    unread: String,
    truncated: bool,
    status: ShellStatus,
    handle: Option<u64>,
}

/// What is known of a shell: its command, its unread output, whether some of that
/// was cut off, its state, and the task that follows it while it runs.
pub struct ShellView {
    pub command: Seq<char>,
    pub unread: Seq<char>,
    pub truncated: bool,
    pub status: ShellStatusView,
    pub handle: Option<u64>,
}

impl ShellEntry {
    spec fn view(&self) -> ShellView {
        ShellView {
            command: self.command@,
            unread: self.unread@,
            truncated: self.truncated,
            status: self.status@,
            handle: self.handle,
        }
    }
}

/// Remark behind output that was cut off.
pub open spec fn cap_marker() -> Seq<char> {
    "\n…[background shell output exceeded the unread-buffer cap; call bash_output more often to drain it]"@
}

/// A shell that was just started.
pub open spec fn started(command: Seq<char>) -> ShellView {
    ShellView {
        command,
        unread: ""@,
        truncated: false,
        status: ShellStatusView::Running,
        handle: None,
    }
}

/// The shell after it has produced more output: kept whole while it fits under the
/// cap; the first time it does not, what fits is kept and a remark put behind it.
pub open spec fn appended(s: ShellView, chunk: Seq<char>) -> ShellView {
    if byte_len(s.unread) + byte_len(chunk) <= MAX_UNREAD_BYTES {
        ShellView { unread: s.unread + chunk, ..s }
    } else if !s.truncated {
        let room = if byte_len(s.unread) <= MAX_UNREAD_BYTES {
            MAX_UNREAD_BYTES - byte_len(s.unread)
        } else {
            0
        };
        ShellView {
            unread: s.unread + fit_of(chunk, room) + cap_marker(),
            truncated: true,
            ..s
        }
    } else {
        s
    }
}

/// The shell after it has ended; an end that is already recorded stays.
pub open spec fn finished(s: ShellView, status: ShellStatusView) -> ShellView {
    if s.status is Running {
        ShellView { status, handle: None, ..s }
    } else {
        s
    }
}

/// The shell after its output was read.
pub open spec fn drained_shell(s: ShellView) -> ShellView {
    ShellView { unread: ""@, truncated: false, ..s }
}

/// A piled-up output is within the cap, or cut off and within the cap and remark.
pub open spec fn within_cap(s: ShellView) -> bool {
    &&& !s.truncated ==> byte_len(s.unread) <= MAX_UNREAD_BYTES
    &&& byte_len(s.unread) <= MAX_UNREAD_BYTES + byte_len(cap_marker())
}

/// The shells with the one under `id` replaced.
pub open spec fn with_shell(shells: Seq<(Seq<char>, ShellView)>, i: int, s: ShellView) -> Seq<
    (Seq<char>, ShellView),
> {
    shells.update(i, (shells[i].0, s))
}

/// Number of shells that run.
pub open spec fn running_in(shells: Seq<(Seq<char>, ShellView)>) -> nat
    decreases shells.len(),
{
    if shells.len() == 0 {
        0
    } else {
        running_in(shells.drop_last()) + if shells.last().1.status is Running {
            1nat
        } else {
            0nat
        }
    }
}

/// The tasks that follow running shells, in order.
pub open spec fn followers(shells: Seq<(Seq<char>, ShellView)>) -> Seq<u64>
    decreases shells.len(),
{
    if shells.len() == 0 {
        Seq::empty()
    } else {
        let before = followers(shells.drop_last());
        match (shells.last().1.status, shells.last().1.handle) {
            (ShellStatusView::Running, Some(h)) => before.push(h),
            _ => before,
        }
    }
}

/// The shells with every running one killed.
pub open spec fn all_killed(shells: Seq<(Seq<char>, ShellView)>) -> Seq<(Seq<char>, ShellView)> {
    Seq::new(
        shells.len(),
        |i: int| (shells[i].0, finished(shells[i].1, ShellStatusView::Killed)),
    )
}

/// Registry of background shells. `aborts` lists the follower tasks that are to be
/// stopped; dropping one ends its process group.
pub struct BackgroundShellStore {
    shells: Registry<ShellEntry>,
    aborts: Vec<u64>,
}

spec fn shells_view(e: Seq<(Seq<char>, ShellEntry)>) -> Seq<(Seq<char>, ShellView)> {
    Seq::new(e.len(), |i: int| (e[i].0, e[i].1.view()))
}

impl BackgroundShellStore {
    /// The shells in the order in which they were started.
    pub closed spec fn shells(&self) -> Seq<(Seq<char>, ShellView)> {
        shells_view(self.shells@)
    }

    /// Follower tasks to be stopped, in the order in which that was decided.
    pub closed spec fn aborts(&self) -> Seq<u64> {
        self.aborts@
    }

    /// Ids are distinct, the number of shells is within the capacity, and no unread
    /// output exceeds its cap and remark.
    pub closed spec fn wf(&self) -> bool {
        &&& self.shells.wf()
        &&& self.shells@.len() <= SHELL_STORE_CAPACITY
        &&& forall|i: int|
            0 <= i < self.shells@.len() ==> within_cap((#[trigger] self.shells@[i]).1.view())
    }

    /// What holds of every store.
    pub proof fn law_store_is_bounded(&self)
        requires
            self.wf(),
        ensures
            distinct_ids(self.shells()),
            self.shells().len() <= SHELL_STORE_CAPACITY,
            forall|i: int|
                0 <= i < self.shells().len() ==> within_cap((#[trigger] self.shells()[i]).1),
    {
        self.shells.lemma_wf();
        assert forall|i: int, j: int| 0 <= i < j < self.shells().len() implies (
        #[trigger] self.shells()[i]).0 != (#[trigger] self.shells()[j]).0 by {
            assert(self.shells@[i].0 != self.shells@[j].0);
        }
        assert forall|i: int| 0 <= i < self.shells().len() implies within_cap(
            (#[trigger] self.shells()[i]).1,
        ) by {
            assert(within_cap(self.shells@[i].1.view()));
        }
    }

    /// A store without shells.
    pub fn new() -> (r: BackgroundShellStore)
        ensures
            r.wf(),
            r.shells().len() == 0,
            r.aborts().len() == 0,
    {
        BackgroundShellStore { shells: Registry::new(), aborts: Vec::new() }
    }

    /// Number of shells that may run at the same time.
    pub fn max_concurrent() -> (r: usize)
        ensures
            r == MAX_CONCURRENT_SHELLS,
    {
        MAX_CONCURRENT_SHELLS
    }

    fn find(&self, id: &str) -> (r: Option<usize>)
        requires
            self.wf(),
        ensures
            match r {
                Some(i) => slot_of(self.shells(), id@) == Some(i as int) && i < self.shells().len(),
                None => slot_of(self.shells(), id@) is None,
            },
    {
        proof {
            lemma_same_slots(self.shells@, self.shells(), id@);
        }
        self.shells.find(id)
    }

    fn set(&mut self, i: usize, e: ShellEntry)
        requires
            old(self).wf(),
            i < old(self).shells().len(),
            within_cap(e.view()),
        ensures
            final(self).wf(),
            final(self).shells() == with_shell(old(self).shells(), i as int, e.view()),
            final(self).aborts() == old(self).aborts(),
    {
        let ghost before = self.shells();
        self.shells.set_at(i, e);
        assert(self.shells() =~= with_shell(before, i as int, e.view()));
    }

    /// Records a shell that was just started; at capacity the oldest one goes.
    pub fn register(&mut self, id: String, command: String)
        requires
            old(self).wf(),
        ensures
            final(self).wf(),
            final(self).shells() == put_of(
                old(self).shells(),
                id@,
                started(command@),
                SHELL_STORE_CAPACITY as nat,
            ),
            final(self).aborts() == old(self).aborts(),
    {
        let ghost before = self.shells@;
        let ghost name = id@;
        let entry = ShellEntry {
            command,
            unread: "".to_owned(),
            truncated: false,
            status: ShellStatus::Running,
            handle: None,
        };
        let ghost e = entry;
        proof {
            reveal_strlit("");
            assert(""@ =~= Seq::empty());
            crate::text::lemma_byte_len_empty();
            lemma_same_slots(before, self.shells(), name);
            lemma_slot(before, name);
        }
        self.shells.put(id, entry, SHELL_STORE_CAPACITY);
        assert(self.shells() =~= put_of(
            shells_view(before),
            name,
            started(command@),
            SHELL_STORE_CAPACITY as nat,
        ));
    }

    /// Attaches the task that follows a shell. A task for a shell that is unknown
    /// or has ended is to be stopped.
    pub fn attach_handle(&mut self, id: &str, handle: u64)
        requires
            old(self).wf(),
        ensures
            final(self).wf(),
            match slot_of(old(self).shells(), id@) {
                Some(i) => {
                    let s = old(self).shells()[i].1;
                    if s.status is Running {
                        &&& final(self).shells() == with_shell(
                            old(self).shells(),
                            i,
                            ShellView { handle: Some(handle), ..s },
                        )
                        &&& final(self).aborts() == old(self).aborts()
                    } else {
                        &&& final(self).shells() == old(self).shells()
                        &&& final(self).aborts() == old(self).aborts().push(handle)
                    }
                },
                None => {
                    &&& final(self).shells() == old(self).shells()
                    &&& final(self).aborts() == old(self).aborts().push(handle)
                },
            },
    {
        match self.find(id) {
            Some(i) => {
                let e = self.shells.item_at(i);
                if e.status.is_running() {
                    let entry = ShellEntry {
                        command: e.command.clone(),
                        unread: e.unread.clone(),
                        truncated: e.truncated,
                        status: ShellStatus::Running,
                        handle: Some(handle),
                    };
                    assert(within_cap(e.view()));
                    self.set(i, entry);
                } else {
                    self.aborts.push(handle);
                }
            },
            None => {
                self.aborts.push(handle);
            },
        }
    }

    /// Adds output of a shell; nothing happens for an unknown id.
    pub fn append(&mut self, id: &str, chunk: &str)
        requires
            old(self).wf(),
        ensures
            final(self).wf(),
            final(self).aborts() == old(self).aborts(),
            match slot_of(old(self).shells(), id@) {
                Some(i) => final(self).shells() == with_shell(
                    old(self).shells(),
                    i,
                    appended(old(self).shells()[i].1, chunk@),
                ),
                None => final(self).shells() == old(self).shells(),
            },
    {
        let ghost before = self.shells();
        match self.find(id) {
            Some(i) => {
                let e = self.shells.item_at(i);
                assert(within_cap(e.view()));
                let have: usize = size(e.unread.as_str());
                let more: usize = size(chunk);
                let ghost old_view = e.view();
                if have <= MAX_UNREAD_BYTES && more <= MAX_UNREAD_BYTES - have {
                    let mut unread = e.unread.clone();
                    unread.append(chunk);
                    proof {
                        lemma_byte_len_concat(e.unread@, chunk@);
                    }
                    let entry = ShellEntry {
                        command: e.command.clone(),
                        unread,
                        truncated: e.truncated,
                        status: e.status.clone(),
                        handle: e.handle,
                    };
                    assert(entry.view() == appended(old_view, chunk@));
                    self.set(i, entry);
                } else if !e.truncated {
                    let room: usize = if have <= MAX_UNREAD_BYTES {
                        MAX_UNREAD_BYTES - have
                    } else {
                        0
                    };
                    let piece = fit(chunk, room);
                    let mut unread = e.unread.clone();
                    unread.append(piece.as_str());
                    proof {
                        lemma_fit(chunk@, room as int);
                        lemma_byte_len_concat(e.unread@, piece@);
                        lemma_byte_len_concat(e.unread@ + piece@, cap_marker());
                    }
                    unread.append(
                        "\n…[background shell output exceeded the unread-buffer cap; call bash_output more often to drain it]",
                    );
                    let entry = ShellEntry {
                        command: e.command.clone(),
                        unread,
                        truncated: true,
                        status: e.status.clone(),
                        handle: e.handle,
                    };
                    assert(entry.view() == appended(old_view, chunk@));
                    self.set(i, entry);
                } else {
                    assert(appended(old_view, chunk@) == old_view);
                    assert(self.shells() =~= with_shell(before, i as int, old_view));
                }
            },
            None => {},
        }
    }

    /// Records how a shell ended; the first end recorded stays.
    pub fn finish(&mut self, id: &str, status: ShellStatus)
        requires
            old(self).wf(),
        ensures
            final(self).wf(),
            final(self).aborts() == old(self).aborts(),
            match slot_of(old(self).shells(), id@) {
                Some(i) => final(self).shells() == with_shell(
                    old(self).shells(),
                    i,
                    finished(old(self).shells()[i].1, status@),
                ),
                None => final(self).shells() == old(self).shells(),
            },
    {
        let ghost before = self.shells();
        match self.find(id) {
            Some(i) => {
                let e = self.shells.item_at(i);
                assert(within_cap(e.view()));
                if e.status.is_running() {
                    let entry = ShellEntry {
                        command: e.command.clone(),
                        unread: e.unread.clone(),
                        truncated: e.truncated,
                        status,
                        handle: None,
                    };
                    self.set(i, entry);
                } else {
                    assert(self.shells() =~= with_shell(before, i as int, e.view()));
                }
            },
            None => {},
        }
    }

    /// Hands out the output since the last reading, and the state; `None` for an
    /// unknown id.
    pub fn read_new(&mut self, id: &str) -> (r: Option<(String, ShellStatus)>)
        requires
            old(self).wf(),
        ensures
            final(self).wf(),
            final(self).aborts() == old(self).aborts(),
            match slot_of(old(self).shells(), id@) {
                Some(i) => {
                    &&& r is Some
                    &&& (r->0).0@ == old(self).shells()[i].1.unread
                    &&& (r->0).1@ == old(self).shells()[i].1.status
                    &&& final(self).shells() == with_shell(
                        old(self).shells(),
                        i,
                        drained_shell(old(self).shells()[i].1),
                    )
                },
                None => r is None && final(self).shells() == old(self).shells(),
            },
    {
        match self.find(id) {
            Some(i) => {
                let e = self.shells.item_at(i);
                let out = e.unread.clone();
                let status = e.status.clone();
                let entry = ShellEntry {
                    command: e.command.clone(),
                    unread: "".to_owned(),
                    truncated: false,
                    status: e.status.clone(),
                    handle: e.handle,
                };
                proof {
                    reveal_strlit("");
                    assert(""@ =~= Seq::empty());
                    crate::text::lemma_byte_len_empty();
                }
                self.set(i, entry);
                Some((out, status))
            },
            None => None,
        }
    }

    /// Kills a running shell; its follower is to be stopped. Tells whether there
    /// was a running shell.
    pub fn kill(&mut self, id: &str) -> (r: bool)
        requires
            old(self).wf(),
        ensures
            final(self).wf(),
            match slot_of(old(self).shells(), id@) {
                Some(i) => {
                    let s = old(self).shells()[i].1;
                    &&& r == (s.status is Running)
                    &&& final(self).shells() == with_shell(
                        old(self).shells(),
                        i,
                        finished(s, ShellStatusView::Killed),
                    )
                    &&& final(self).aborts() == (match s.handle {
                        Some(h) if s.status is Running => old(self).aborts().push(h),
                        _ => old(self).aborts(),
                    })
                },
                None => {
                    &&& !r
                    &&& final(self).shells() == old(self).shells()
                    &&& final(self).aborts() == old(self).aborts()
                },
            },
    {
        let ghost before = self.shells();
        match self.find(id) {
            Some(i) => {
                let e = self.shells.item_at(i);
                assert(within_cap(e.view()));
                if e.status.is_running() {
                    let handle = e.handle;
                    let entry = ShellEntry {
                        command: e.command.clone(),
                        unread: e.unread.clone(),
                        truncated: e.truncated,
                        status: ShellStatus::Killed,
                        handle: None,
                    };
                    self.set(i, entry);
                    match handle {
                        Some(h) => {
                            self.aborts.push(h);
                        },
                        None => {},
                    }
                    true
                } else {
                    assert(self.shells() =~= with_shell(before, i as int, e.view()));
                    false
                }
            },
            None => false,
        }
    }

    /// Number of shells that run.
    pub fn running_count(&self) -> (r: usize)
        requires
            self.wf(),
        ensures
            r == running_in(self.shells()),
    {
        let ghost all = self.shells();
        let n: usize = self.shells.len();
        let mut r: usize = 0;
        let mut i: usize = 0;
        assert(all.take(0) =~= Seq::empty());
        while i < n
            invariant
                i <= n,
                n == self.shells@.len(),
                self.wf(),
                all == self.shells(),
                r <= i,
                r == running_in(all.take(i as int)),
            decreases n - i,
        {
            assert(all.take(i + 1).drop_last() =~= all.take(i as int));
            if self.shells.item_at(i).status.is_running() {
                r += 1;
            }
            i += 1;
        }
        assert(all.take(i as int) =~= all);
        r
    }

    /// Every remembered shell, the newest last.
    pub fn list(&self) -> (r: Vec<ShellInfo>)
        requires
            self.wf(),
        ensures
            r@.len() == self.shells().len(),
            forall|i: int|
                0 <= i < r@.len() ==> {
                    &&& (#[trigger] r@[i]).id@ == self.shells()[i].0
                    &&& r@[i].command@ == self.shells()[i].1.command
                    &&& r@[i].status@ == self.shells()[i].1.status
                },
    {
        let n: usize = self.shells.len();
        let mut out: Vec<ShellInfo> = Vec::new();
        let mut i: usize = 0;
        while i < n
            invariant
                i <= n,
                n == self.shells@.len(),
                self.wf(),
                out@.len() == i,
                forall|k: int|
                    0 <= k < i ==> {
                        &&& (#[trigger] out@[k]).id@ == self.shells()[k].0
                        &&& out@[k].command@ == self.shells()[k].1.command
                        &&& out@[k].status@ == self.shells()[k].1.status
                    },
            decreases n - i,
        {
            let id = self.shells.id_at(i);
            let e = self.shells.item_at(i);
            let info = ShellInfo { id, command: e.command.clone(), status: e.status.clone() };
            out.push(info);
            i += 1;
        }
        out
    }

    /// Kills every running shell; their followers are to be stopped.
    pub fn kill_all(&mut self)
        requires
            old(self).wf(),
        ensures
            final(self).wf(),
            final(self).shells() == all_killed(old(self).shells()),
            final(self).aborts() == old(self).aborts() + followers(old(self).shells()),
    {
        let ghost all = self.shells();
        let ghost done = all_killed(all);
        let ghost queued = self.aborts();
        let n: usize = self.shells.len();
        let mut i: usize = 0;
        proof {
            assert(all.take(0) =~= Seq::empty());
            assert(self.shells() =~= done.take(0) + all.skip(0));
            assert(self.aborts() =~= queued + followers(all.take(0)));
        }
        while i < n
            invariant
                i <= n,
                n == all.len(),
                self.wf(),
                done == all_killed(all),
                self.shells() == done.take(i as int) + all.skip(i as int),
                self.aborts() == queued + followers(all.take(i as int)),
            decreases n - i,
        {
            let ghost mid = self.shells();
            assert(mid.len() == n && mid.len() == self.shells@.len());
            assert(mid[i as int] == all[i as int]);
            proof {
                assert(all.take(i + 1).drop_last() =~= all.take(i as int));
                assert(all.take(i + 1).last() == all[i as int]);
            }
            let e = self.shells.item_at(i);
            assert(within_cap(e.view()));
            if e.status.is_running() {
                let handle = e.handle;
                let entry = ShellEntry {
                    command: e.command.clone(),
                    unread: e.unread.clone(),
                    truncated: e.truncated,
                    status: ShellStatus::Killed,
                    handle: None,
                };
                self.set(i, entry);
                match handle {
                    Some(h) => {
                        self.aborts.push(h);
                    },
                    None => {},
                }
            }
            proof {
                assert(self.shells() =~= done.take(i + 1) + all.skip(i + 1));
                assert(self.aborts() =~= queued + followers(all.take(i + 1)));
            }
            i += 1;
        }
        proof {
            assert(all.take(i as int) =~= all);
            assert(self.shells() =~= done);
        }
    }

    /// Hands out the follower tasks that are to be stopped.
    pub fn take_aborts(&mut self) -> (r: Vec<u64>)
        requires
            old(self).wf(),
        ensures
            final(self).wf(),
            r@ == old(self).aborts(),
            final(self).aborts().len() == 0,
            final(self).shells() == old(self).shells(),
    {
        let mut out: Vec<u64> = Vec::new();
        out.append(&mut self.aborts);
        assert(out@ =~= old(self).aborts());
        out
    }
}

/// Arguments of the `bash_output` tool.
#[derive(Debug)]
pub struct BashOutputArgs {
    pub id: String,
}

/// Arguments of the `kill_shell` tool.
#[derive(Debug)]
pub struct KillShellArgs {
    pub id: String,
}

/// Reads what a background shell has produced since the last reading.
pub struct BashOutputTool {
    pub store: BackgroundShellStore,
}

/// Stops a background shell.
pub struct KillShellTool {
    pub store: BackgroundShellStore,
}

/// The answer of `bash_output` for a known shell.
pub open spec fn output_text(id: Seq<char>, s: ShellView) -> Seq<char> {
    "[shell "@ + id + " — "@ + label_of(s.status) + "]\n"@ + (if s.unread.len() == 0 {
        "(no new output)"@
    } else {
        s.unread
    })
}

impl BashOutputTool {
    /// The tool on the given store.
    pub fn new(store: BackgroundShellStore) -> (r: BashOutputTool)
        ensures
            r.store == store,
    {
        BashOutputTool { store }
    }

    /// Reads the new output of a shell and its state; refuses an unknown id.
    pub fn call(&mut self, args: &BashOutputArgs) -> (r: Result<String, String>)
        requires
            old(self).store.wf(),
        ensures
            final(self).store.wf(),
            final(self).store.aborts() == old(self).store.aborts(),
            match slot_of(old(self).store.shells(), args.id@) {
                Some(i) => {
                    &&& r is Ok
                    &&& r->Ok_0@ == output_text(args.id@, old(self).store.shells()[i].1)
                    &&& final(self).store.shells() == with_shell(
                        old(self).store.shells(),
                        i,
                        drained_shell(old(self).store.shells()[i].1),
                    )
                },
                None => {
                    &&& r is Err
                    &&& r->Err_0@ == "no background shell with id "@ + quoted_of(args.id@)
                        + " (it may have been evicted)"@
                    &&& final(self).store.shells() == old(self).store.shells()
                },
            },
    {
        match self.store.read_new(args.id.as_str()) {
            Some((out, status)) => {
                let mut text = String::new();
                text.append("[shell ");
                text.append(args.id.as_str());
                text.append(" — ");
                let label = status.label();
                text.append(label.as_str());
                text.append("]\n");
                if out.as_str().is_empty() {
                    text.append("(no new output)");
                } else {
                    text.append(out.as_str());
                }
                Ok(text)
            },
            None => {
                let mut text = String::new();
                text.append("no background shell with id ");
                let q = quoted(args.id.as_str());
                text.append(q.as_str());
                text.append(" (it may have been evicted)");
                Err(text)
            },
        }
    }
}

impl KillShellTool {
    /// The tool on the given store.
    pub fn new(store: BackgroundShellStore) -> (r: KillShellTool)
        ensures
            r.store == store,
    {
        KillShellTool { store }
    }

    /// Stops a shell and tells whether one was running under the id.
    pub fn call(&mut self, args: &KillShellArgs) -> (r: String)
        requires
            old(self).store.wf(),
        ensures
            final(self).store.wf(),
            match slot_of(old(self).store.shells(), args.id@) {
                Some(i) if old(self).store.shells()[i].1.status is Running => {
                    &&& r@ == "killed background shell "@ + args.id@
                    &&& final(self).store.shells() == with_shell(
                        old(self).store.shells(),
                        i,
                        finished(old(self).store.shells()[i].1, ShellStatusView::Killed),
                    )
                    &&& final(self).store.aborts() == (match old(self).store.shells()[i].1.handle {
                        Some(h) => old(self).store.aborts().push(h),
                        None => old(self).store.aborts(),
                    })
                },
                _ => {
                    &&& r@ == "no running background shell with id "@ + quoted_of(args.id@)
                        + " (already exited or unknown)"@
                    &&& final(self).store.shells() == old(self).store.shells()
                    &&& final(self).store.aborts() == old(self).store.aborts()
                },
            },
    {
        let ghost before = self.store.shells();
        if self.store.kill(args.id.as_str()) {
            crate::text::cat("killed background shell ", args.id.as_str())
        } else {
            proof {
                if let Some(i) = slot_of(before, args.id@) {
                    lemma_slot(before, args.id@);
                    assert(with_shell(before, i, before[i].1) =~= before);
                }
            }
            let mut text = String::new();
            text.append("no running background shell with id ");
            let q = quoted(args.id.as_str());
            text.append(q.as_str());
            text.append(" (already exited or unknown)");
            text
        }
    }
}

/// The first recorded end of a shell stays, whatever is recorded later.
pub proof fn law_first_end_stays(s: ShellView, first: ShellStatusView, later: ShellStatusView)
    requires
        !(first is Running),
    ensures
        finished(finished(s, first), later) == finished(s, first),
{
}

/// Reading takes the output away: what is then read is only what came since.
pub proof fn law_read_drains(s: ShellView, chunk: Seq<char>)
    requires
        byte_len(chunk) <= MAX_UNREAD_BYTES,
    ensures
        drained_shell(s).unread.len() == 0,
        appended(drained_shell(s), chunk).unread == chunk,
{
    reveal_strlit("");
    assert(""@ =~= Seq::empty());
    crate::text::lemma_byte_len_empty();
    assert(""@ + chunk =~= chunk);
}

/// No order of appends lets unread output grow past the cap and its remark.
pub proof fn law_append_keeps_cap(s: ShellView, chunk: Seq<char>)
    requires
        within_cap(s),
    ensures
        within_cap(appended(s, chunk)),
{
    lemma_byte_len_concat(s.unread, chunk);
    if byte_len(s.unread) + byte_len(chunk) > MAX_UNREAD_BYTES && !s.truncated {
        let room = MAX_UNREAD_BYTES - byte_len(s.unread);
        lemma_fit(chunk, room);
        lemma_byte_len_concat(s.unread, fit_of(chunk, room));
        lemma_byte_len_concat(s.unread + fit_of(chunk, room), cap_marker());
    }
}

/// Output that fits under the cap is kept whole behind what was there; output that does not
/// never takes anything away, and of it the first characters that fit are kept the first time.
/// Nothing else of the shell changes.
pub proof fn law_output_piles_up(s: ShellView, chunk: Seq<char>)
    ensures
        ({
            let t = appended(s, chunk);
            &&& byte_len(s.unread) + byte_len(chunk) <= MAX_UNREAD_BYTES ==> t.unread == s.unread + chunk
                && t.truncated == s.truncated
            &&& t.unread.len() >= s.unread.len() && t.unread.take(s.unread.len() as int) == s.unread
            &&& byte_len(s.unread) + byte_len(chunk) > MAX_UNREAD_BYTES ==> t.truncated
            &&& byte_len(s.unread) + byte_len(chunk) > MAX_UNREAD_BYTES && !s.truncated ==> exists|k: int|
                0 <= k <= chunk.len() && t.unread == s.unread + #[trigger] chunk.take(k) + cap_marker()
            &&& t.command == s.command && t.status == s.status && t.handle == s.handle
        }),
{
    let t = appended(s, chunk);
    assert(t.unread.take(s.unread.len() as int) =~= s.unread);
    if byte_len(s.unread) + byte_len(chunk) > MAX_UNREAD_BYTES && !s.truncated {
        let room = if byte_len(s.unread) <= MAX_UNREAD_BYTES {
            MAX_UNREAD_BYTES - byte_len(s.unread)
        } else {
            0
        };
        lemma_fit(chunk, room);
        let k = fit_of(chunk, room).len() as int;
        assert(fit_of(chunk, room) == chunk.take(k));
    }
}

/// The answer for a shell names it, says how it stands, and holds all of its unread output;
/// the code of one that ended and the error of one that failed are told.
pub proof fn law_shell_output_is_told(id: Seq<char>, s: ShellView)
    ensures
        in_order(output_text(id, s), seq![id, label_of(s.status), s.unread]),
        s.status matches ShellStatusView::Exited(c) ==> occurs(label_of(s.status), signed_of(c)),
        s.status matches ShellStatusView::Failed(e) ==> occurs(label_of(s.status), e),
{
    let none = Seq::<Seq<char>>::empty();
    let l = label_of(s.status);
    let a = "[shell "@;
    lemma_in_order_none(a);
    lemma_in_order_next(a, none, id);
    lemma_in_order_more(a + id, none.push(id), " — "@);
    let b = a + id + " — "@;
    lemma_in_order_next(b, none.push(id), l);
    let ps = none.push(id).push(l);
    lemma_in_order_more(b + l, ps, "]\n"@);
    let c = b + l + "]\n"@;
    lemma_in_order_next(c, ps, s.unread);
    if s.unread.len() == 0 {
        lemma_in_order_more(c + s.unread, ps.push(s.unread), "(no new output)"@);
        assert(c + s.unread + "(no new output)"@ =~= output_text(id, s));
    }
    assert(ps.push(s.unread) =~= seq![id, l, s.unread]);
    match s.status {
        ShellStatusView::Exited(c) => {
            lemma_occurs_between("exited("@, signed_of(c), ")"@);
        },
        ShellStatusView::Failed(e) => {
            lemma_occurs_between("failed: "@, e, Seq::empty());
            assert("failed: "@ + e + Seq::empty() =~= label_of(s.status));
        },
        _ => {},
    }
}

} // verus!
