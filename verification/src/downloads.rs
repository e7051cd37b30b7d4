//! The download scheduler: one task table shared by every window, a FIFO of
//! queued tasks, at most four transfers at a time, and in-flight
//! de-duplication by `(save id, content id)`.
//!
//! The table keeps tasks in the order they were enqueued. The queue is the
//! queued tasks in that order, and the in-flight map is the active task of
//! each key, so both are read off the table instead of being kept beside it.
//! Starting a transfer, emitting events and timers stay with the caller: each
//! operation returns the transfers it started.

use vstd::prelude::*;
use vstd::utf8::{decode_utf8, encode_utf8, is_char_boundary};
use vstd::string::StringSliceAdditionalSpecFns;
use crate::text::{append_str, chars_of, decimal, decimal_string, owned, string_from_chars, trim, trimmed};

verus! {

/// The most transfers that run at the same time, across all entries.
pub const MAX_CONCURRENT_DOWNLOADS: usize = 4;

/// Where a download task stands.
#[derive(Clone, Copy, PartialEq, Eq, Structural, Debug)]
pub enum DownloadStatus {
    Queued,
    Downloading,
    Succeeded,
    Failed,
    Cancelled,
}

/// How a transfer ended, as its worker reports it.
#[derive(Clone, Debug)]
pub enum TaskOutcome {
    Succeeded,
    Failed(String),
    Cancelled(String),
}

/// One file of a batch to download.
#[derive(Clone, Debug)]
pub struct DownloadRequest {
    pub file_id: String,
    pub size: u64,
}

/// One task of the table.
#[derive(Clone, Debug)]
pub struct DownloadTask {
    pub id: String,
    pub batch_id: u64,
    pub entry_id: String,
    pub file_id: String,
    pub save_id: Option<String>,
    pub label: String,
    pub size: u64,
    pub status: DownloadStatus,
    pub received_bytes: u64,
    pub error: Option<String>,
    /// Whether the task ever took a transfer slot.
    pub started: bool,
    /// Whether its transfer has reported back.
    pub finished: bool,
}

/// What the caller needs to run one transfer that was just started.
#[derive(Clone, Debug)]
pub struct TaskStart {
    pub task_id: String,
    pub entry_id: String,
    pub file_id: String,
    pub save_id: Option<String>,
    pub size: u64,
}

/// The task table and the number of transfers holding a slot.
pub struct Downloader {
    pub tasks: Vec<DownloadTask>,
    pub active: usize,
    pub next_batch_id: u64,
}

/// The mathematical value of a task.
pub struct TaskView {
    pub id: Seq<char>,
    pub batch_id: u64,
    pub entry_id: Seq<char>,
    pub file_id: Seq<char>,
    pub save_id: Option<Seq<char>>,
    pub label: Seq<char>,
    pub size: u64,
    pub status: DownloadStatus,
    pub received_bytes: u64,
    pub error: Option<Seq<char>>,
    pub started: bool,
    pub finished: bool,
}

pub open spec fn opt_string_view(o: Option<String>) -> Option<Seq<char>> {
    match o {
        Some(s) => Some(s@),
        None => None,
    }
}

pub open spec fn task_view(t: DownloadTask) -> TaskView {
    TaskView {
        id: t.id@,
        batch_id: t.batch_id,
        entry_id: t.entry_id@,
        file_id: t.file_id@,
        save_id: opt_string_view(t.save_id),
        label: t.label@,
        size: t.size,
        status: t.status,
        received_bytes: t.received_bytes,
        error: opt_string_view(t.error),
        started: t.started,
        finished: t.finished,
    }
}

pub open spec fn tasks_view(ts: Seq<DownloadTask>) -> Seq<TaskView> {
    Seq::new(ts.len(), |i: int| task_view(ts[i]))
}

pub open spec fn start_view(s: TaskStart) -> (Seq<char>, Seq<char>, Seq<char>, Option<Seq<char>>, u64) {
    (s.task_id@, s.entry_id@, s.file_id@, opt_string_view(s.save_id), s.size)
}

pub open spec fn starts_view(v: Seq<TaskStart>) -> Seq<(Seq<char>, Seq<char>, Seq<char>, Option<Seq<char>>, u64)> {
    Seq::new(v.len(), |i: int| start_view(v[i]))
}

/// Queued or downloading: not yet in a final state.
pub open spec fn status_active(s: DownloadStatus) -> bool {
    s == DownloadStatus::Queued || s == DownloadStatus::Downloading
}

/// Whether a status is not final.
pub fn is_active(status: DownloadStatus) -> (b: bool)
    ensures
        b == status_active(status),
{
    match status {
        DownloadStatus::Queued | DownloadStatus::Downloading => true,
        _ => false,
    }
}

/// A transfer that holds a slot: started, not yet reported back.
pub open spec fn holds_slot(t: TaskView) -> bool {
    t.started && !t.finished
}

pub open spec fn count_slots(ts: Seq<TaskView>) -> nat
    decreases ts.len(),
{
    if ts.len() == 0 {
        0
    } else {
        count_slots(ts.drop_last()) + if holds_slot(ts.last()) {
            1nat
        } else {
            0nat
        }
    }
}

/// The ids of the queued tasks, in table order: the download queue.
pub open spec fn queued_ids(ts: Seq<TaskView>) -> Seq<Seq<char>>
    decreases ts.len(),
{
    if ts.len() == 0 {
        Seq::empty()
    } else if ts.last().status == DownloadStatus::Queued {
        queued_ids(ts.drop_last()).push(ts.last().id)
    } else {
        queued_ids(ts.drop_last())
    }
}

/// The in-flight key of a task.
pub open spec fn same_key(a: TaskView, b: TaskView) -> bool {
    a.save_id == b.save_id && a.file_id == b.file_id
}

/// What every state of the scheduler satisfies: unique task ids, at most one
/// active task per key, statuses that agree with the slot flags, the slot
/// count, at most four transfers, and no queued task while a slot is free.
pub open spec fn tasks_wf(ts: Seq<TaskView>, active: nat) -> bool {
    &&& forall|i: int, j: int| 0 <= i < j < ts.len() ==> #[trigger] ts[i].id != #[trigger] ts[j].id
    &&& forall|i: int, j: int|
        0 <= i < j < ts.len() && status_active(#[trigger] ts[i].status) && status_active(
            #[trigger] ts[j].status,
        ) ==> !same_key(ts[i], ts[j])
    &&& forall|i: int|
        0 <= i < ts.len() && #[trigger] ts[i].status == DownloadStatus::Queued ==> !ts[i].started
            && !ts[i].finished
    &&& forall|i: int|
        0 <= i < ts.len() && #[trigger] ts[i].status == DownloadStatus::Downloading ==> ts[i].started
            && !ts[i].finished
    &&& forall|i: int| 0 <= i < ts.len() && #[trigger] ts[i].finished ==> !status_active(ts[i].status)
    &&& active == count_slots(ts)
    &&& active <= MAX_CONCURRENT_DOWNLOADS
    &&& active == MAX_CONCURRENT_DOWNLOADS || queued_ids(ts).len() == 0
}

impl Downloader {
    pub open spec fn view_tasks(&self) -> Seq<TaskView> {
        tasks_view(self.tasks@)
    }

    pub open spec fn wf(&self) -> bool {
        tasks_wf(self.view_tasks(), self.active as nat)
    }

    /// An empty scheduler.
    pub fn new() -> (d: Downloader)
        ensures
            d.wf(),
            d.view_tasks().len() == 0,
            d.next_batch_id == 1,
    {
        let d = Downloader { tasks: Vec::new(), active: 0, next_batch_id: 1 };
        assert(d.view_tasks() =~= Seq::<TaskView>::empty());
        d
    }
}

} // verus!

verus! {

/// Everything of [`tasks_wf`] but the rule that no task waits while a slot
/// is free, which only holds again once the queue has been pumped.
pub open spec fn tasks_wf_core(ts: Seq<TaskView>, active: nat) -> bool {
    &&& forall|i: int, j: int| 0 <= i < j < ts.len() ==> #[trigger] ts[i].id != #[trigger] ts[j].id
    &&& forall|i: int, j: int|
        0 <= i < j < ts.len() && status_active(#[trigger] ts[i].status) && status_active(
            #[trigger] ts[j].status,
        ) ==> !same_key(ts[i], ts[j])
    &&& forall|i: int|
        0 <= i < ts.len() && #[trigger] ts[i].status == DownloadStatus::Queued ==> !ts[i].started
            && !ts[i].finished
    &&& forall|i: int|
        0 <= i < ts.len() && #[trigger] ts[i].status == DownloadStatus::Downloading ==> ts[i].started
            && !ts[i].finished
    &&& forall|i: int| 0 <= i < ts.len() && #[trigger] ts[i].finished ==> !status_active(ts[i].status)
    &&& active == count_slots(ts)
    &&& active <= MAX_CONCURRENT_DOWNLOADS
}

pub proof fn lemma_count_slots_update(ts: Seq<TaskView>, k: int, t: TaskView)
    requires
        0 <= k < ts.len(),
    ensures
        count_slots(ts.update(k, t)) + (if holds_slot(ts[k]) { 1int } else { 0int }) == count_slots(ts) + (
        if holds_slot(t) {
            1int
        } else {
            0int
        }),
    decreases ts.len(),
{
    if k < ts.len() - 1 {
        lemma_count_slots_update(ts.drop_last(), k, t);
        assert(ts.update(k, t).drop_last() =~= ts.drop_last().update(k, t));
    } else {
        assert(ts.update(k, t).drop_last() =~= ts.drop_last());
    }
}

pub proof fn lemma_queued_len_update(ts: Seq<TaskView>, k: int, t: TaskView)
    requires
        0 <= k < ts.len(),
    ensures
        queued_ids(ts.update(k, t)).len() + (if ts[k].status == DownloadStatus::Queued {
            1int
        } else {
            0int
        }) == queued_ids(ts).len() + (if t.status == DownloadStatus::Queued {
            1int
        } else {
            0int
        }),
    decreases ts.len(),
{
    if k < ts.len() - 1 {
        lemma_queued_len_update(ts.drop_last(), k, t);
        assert(ts.update(k, t).drop_last() =~= ts.drop_last().update(k, t));
    } else {
        assert(ts.update(k, t).drop_last() =~= ts.drop_last());
    }
}

pub proof fn lemma_count_slots_remove(ts: Seq<TaskView>, k: int)
    requires
        0 <= k < ts.len(),
    ensures
        count_slots(ts.remove(k)) + (if holds_slot(ts[k]) { 1int } else { 0int }) == count_slots(ts),
        queued_ids(ts.remove(k)).len() + (if ts[k].status == DownloadStatus::Queued {
            1int
        } else {
            0int
        }) == queued_ids(ts).len(),
    decreases ts.len(),
{
    if k < ts.len() - 1 {
        lemma_count_slots_remove(ts.drop_last(), k);
        assert(ts.remove(k).drop_last() =~= ts.drop_last().remove(k));
    } else {
        assert(ts.remove(k) =~= ts.drop_last());
    }
}

pub proof fn lemma_queued_ids_empty(ts: Seq<TaskView>)
    ensures
        queued_ids(ts).len() == 0 <==> forall|i: int| 0 <= i < ts.len() ==> #[trigger] ts[i].status
            != DownloadStatus::Queued,
    decreases ts.len(),
{
    if ts.len() > 0 {
        lemma_queued_ids_empty(ts.drop_last());
        if queued_ids(ts).len() == 0 {
            assert forall|i: int| 0 <= i < ts.len() implies #[trigger] ts[i].status != DownloadStatus::Queued by {
                if i < ts.len() - 1 {
                    assert(ts.drop_last()[i] == ts[i]);
                }
            }
        } else {
            if ts.last().status != DownloadStatus::Queued {
                let i = choose|i: int| 0 <= i < ts.drop_last().len() && #[trigger] ts.drop_last()[i].status
                    == DownloadStatus::Queued;
                assert(ts[i] == ts.drop_last()[i]);
            }
        }
    }
}

/// Index of the first queued task, or `-1`.
pub open spec fn first_queued(ts: Seq<TaskView>) -> int
    decreases ts.len(),
{
    if ts.len() == 0 {
        -1
    } else if first_queued(ts.drop_last()) >= 0 {
        first_queued(ts.drop_last())
    } else if ts.last().status == DownloadStatus::Queued {
        ts.len() - 1
    } else {
        -1
    }
}

pub proof fn lemma_first_queued(ts: Seq<TaskView>)
    ensures
        -1 <= first_queued(ts) < ts.len(),
        first_queued(ts) >= 0 ==> ts[first_queued(ts)].status == DownloadStatus::Queued,
        forall|j: int| 0 <= j < ts.len() && (first_queued(ts) < 0 || j < first_queued(ts)) ==> #[trigger] ts[j].status
            != DownloadStatus::Queued,
    decreases ts.len(),
{
    if ts.len() > 0 {
        lemma_first_queued(ts.drop_last());
        assert forall|j: int| 0 <= j < ts.len() && (first_queued(ts) < 0 || j < first_queued(ts)) implies #[trigger] ts[j].status
            != DownloadStatus::Queued by {
            if j < ts.len() - 1 {
                assert(ts.drop_last()[j] == ts[j]);
            }
        }
    }
}

/// A queued task taking a slot.
pub open spec fn start_task(t: TaskView) -> TaskView {
    TaskView { status: DownloadStatus::Downloading, started: true, ..t }
}

/// The table after pumping: while a slot is free, the first queued task
/// starts.
pub open spec fn pump_tasks(ts: Seq<TaskView>, active: nat) -> Seq<TaskView>
    decreases MAX_CONCURRENT_DOWNLOADS - active,
{
    if active < MAX_CONCURRENT_DOWNLOADS && first_queued(ts) >= 0 {
        pump_tasks(ts.update(first_queued(ts), start_task(ts[first_queued(ts)])), active + 1)
    } else {
        ts
    }
}

/// The slot count after pumping.
pub open spec fn pump_active(ts: Seq<TaskView>, active: nat) -> nat
    decreases MAX_CONCURRENT_DOWNLOADS - active,
{
    if active < MAX_CONCURRENT_DOWNLOADS && first_queued(ts) >= 0 {
        pump_active(ts.update(first_queued(ts), start_task(ts[first_queued(ts)])), active + 1)
    } else {
        active
    }
}

/// The tasks pumping starts, in the order it starts them.
pub open spec fn pump_started(ts: Seq<TaskView>, active: nat) -> Seq<TaskView>
    decreases MAX_CONCURRENT_DOWNLOADS - active,
{
    if active < MAX_CONCURRENT_DOWNLOADS && first_queued(ts) >= 0 {
        seq![start_task(ts[first_queued(ts)])] + pump_started(
            ts.update(first_queued(ts), start_task(ts[first_queued(ts)])),
            active + 1,
        )
    } else {
        Seq::empty()
    }
}

proof fn lemma_start_step(ts: Seq<TaskView>, active: nat)
    requires
        tasks_wf_core(ts, active),
        active < MAX_CONCURRENT_DOWNLOADS,
        first_queued(ts) >= 0,
    ensures
        tasks_wf_core(ts.update(first_queued(ts), start_task(ts[first_queued(ts)])), active + 1),
{
    lemma_first_queued(ts);
    let k = first_queued(ts);
    let t = start_task(ts[k]);
    let ts2 = ts.update(k, t);
    lemma_count_slots_update(ts, k, t);
    assert forall|i: int, j: int| 0 <= i < j < ts2.len() implies #[trigger] ts2[i].id != #[trigger] ts2[j].id by {
        assert(ts2[i].id == ts[i].id && ts2[j].id == ts[j].id);
    }
    assert forall|i: int, j: int|
        0 <= i < j < ts2.len() && status_active(#[trigger] ts2[i].status) && status_active(
            #[trigger] ts2[j].status,
        ) implies !same_key(ts2[i], ts2[j]) by {
        assert(status_active(ts[i].status) && status_active(ts[j].status));
    }
}

pub proof fn lemma_pump(ts: Seq<TaskView>, active: nat)
    requires
        tasks_wf_core(ts, active),
    ensures
        tasks_wf(pump_tasks(ts, active), pump_active(ts, active)),
        pump_tasks(ts, active).len() == ts.len(),
        forall|i: int| 0 <= i < ts.len() ==> #[trigger] pump_tasks(ts, active)[i].id == ts[i].id,
    decreases MAX_CONCURRENT_DOWNLOADS - active,
{
    if active < MAX_CONCURRENT_DOWNLOADS && first_queued(ts) >= 0 {
        lemma_start_step(ts, active);
        lemma_first_queued(ts);
        let k = first_queued(ts);
        let ts2 = ts.update(k, start_task(ts[k]));
        lemma_pump(ts2, active + 1);
        assert forall|i: int| 0 <= i < ts.len() implies #[trigger] pump_tasks(ts, active)[i].id == ts[i].id by {
            assert(pump_tasks(ts2, active + 1)[i].id == ts2[i].id);
        }
    } else {
        if active < MAX_CONCURRENT_DOWNLOADS {
            lemma_first_queued(ts);
            lemma_queued_ids_empty(ts);
        }
    }
}

} // verus!

verus! {

/// What a start hands to the caller: task id, entry, content, save session
/// and size.
pub open spec fn start_of(t: TaskView) -> (Seq<char>, Seq<char>, Seq<char>, Option<Seq<char>>, u64) {
    (t.id, t.entry_id, t.file_id, t.save_id, t.size)
}

pub open spec fn starts_of(ts: Seq<TaskView>) -> Seq<(Seq<char>, Seq<char>, Seq<char>, Option<Seq<char>>, u64)> {
    Seq::new(ts.len(), |i: int| start_of(ts[i]))
}

fn clone_opt(o: &Option<String>) -> (r: Option<String>)
    ensures
        opt_string_view(r) == opt_string_view(*o),
{
    match o {
        Some(s) => Some(s.clone()),
        None => None,
    }
}

proof fn lemma_tasks_view_update(ts: Seq<DownloadTask>, k: int, t: DownloadTask)
    requires
        0 <= k < ts.len(),
    ensures
        tasks_view(ts.update(k, t)) == tasks_view(ts).update(k, task_view(t)),
{
    assert(tasks_view(ts.update(k, t)) =~= tasks_view(ts).update(k, task_view(t)));
}

impl Downloader {
    fn find_first_queued(&self) -> (r: Option<usize>)
        ensures
            match r {
                Some(k) => k as int == first_queued(self.view_tasks()),
                None => first_queued(self.view_tasks()) < 0,
            },
    {
        let ghost v = self.view_tasks();
        proof {
            lemma_first_queued(v);
        }
        let mut i: usize = 0;
        while i < self.tasks.len()
            invariant
                i <= self.tasks.len(),
                v == self.view_tasks(),
                v.len() == self.tasks.len(),
                forall|j: int| 0 <= j < i ==> #[trigger] v[j].status != DownloadStatus::Queued,
                -1 <= first_queued(v) < v.len(),
                first_queued(v) >= 0 ==> v[first_queued(v)].status == DownloadStatus::Queued,
                forall|j: int| 0 <= j < v.len() && (first_queued(v) < 0 || j < first_queued(v)) ==> #[trigger] v[j].status
                    != DownloadStatus::Queued,
            decreases self.tasks.len() - i,
        {
            assert(v[i as int] == task_view(self.tasks@[i as int]));
            if self.tasks[i].status == DownloadStatus::Queued {
                proof {
                    let f = first_queued(v);
                    assert(v[i as int].status == DownloadStatus::Queued);
                    if f >= 0 && f < i {
                        assert(v[f].status != DownloadStatus::Queued);
                    }
                }
                return Some(i);
            }
            i = i + 1;
        }
        None
    }

    /// Lets queued tasks through while a slot is free: each
    /// one becomes `Downloading`, takes a slot, and is handed back to be run.
    fn pump(&mut self) -> (starts: Vec<TaskStart>)
        requires
            tasks_wf_core(old(self).view_tasks(), old(self).active as nat),
        ensures
            final(self).view_tasks() == pump_tasks(old(self).view_tasks(), old(self).active as nat),
            final(self).active == pump_active(old(self).view_tasks(), old(self).active as nat),
            final(self).next_batch_id == old(self).next_batch_id,
            starts_view(starts@) == starts_of(pump_started(old(self).view_tasks(), old(self).active as nat)),
            final(self).wf(),
    {
        let ghost v0 = self.view_tasks();
        let ghost a0 = self.active as nat;
        proof {
            lemma_pump(v0, a0);
        }
        let mut starts: Vec<TaskStart> = Vec::new();
        let mut exhausted = false;
        while self.active < MAX_CONCURRENT_DOWNLOADS && !exhausted
            invariant
                tasks_wf_core(self.view_tasks(), self.active as nat),
                pump_tasks(self.view_tasks(), self.active as nat) == pump_tasks(v0, a0),
                pump_active(self.view_tasks(), self.active as nat) == pump_active(v0, a0),
                starts_view(starts@) + starts_of(pump_started(self.view_tasks(), self.active as nat))
                    == starts_of(pump_started(v0, a0)),
                exhausted ==> first_queued(self.view_tasks()) < 0,
                self.next_batch_id == old(self).next_batch_id,
            decreases MAX_CONCURRENT_DOWNLOADS - self.active, if exhausted { 0int } else { 1int },
        {
            match self.find_first_queued() {
                None => {
                    exhausted = true;
                },
                Some(k) => {
                    let ghost v = self.view_tasks();
                    let ghost a = self.active as nat;
                    proof {
                        lemma_first_queued(v);
                        lemma_start_step(v, a);
                    }
                    self.tasks[k].status = DownloadStatus::Downloading;
                    self.tasks[k].started = true;
                    assert(self.view_tasks() =~= v.update(k as int, start_task(v[k as int])));
                    self.active = self.active + 1;
                    let start = TaskStart {
                        task_id: self.tasks[k].id.clone(),
                        entry_id: self.tasks[k].entry_id.clone(),
                        file_id: self.tasks[k].file_id.clone(),
                        save_id: clone_opt(&self.tasks[k].save_id),
                        size: self.tasks[k].size,
                    };
                    let ghost before = starts_view(starts@);
                    starts.push(start);
                    proof {
                        let rest = pump_started(self.view_tasks(), self.active as nat);
                        assert(pump_started(v, a) == seq![start_task(v[k as int])] + rest);
                        assert(starts_view(starts@) =~= before.push(start_of(start_task(v[k as int]))));
                        assert(starts_of(seq![start_task(v[k as int])] + rest) =~= seq![
                            start_of(start_task(v[k as int])),
                        ] + starts_of(rest));
                        assert(before.push(start_of(start_task(v[k as int]))) + starts_of(rest) =~= before
                            + (seq![start_of(start_task(v[k as int]))] + starts_of(rest)));
                    }
                },
            }
        }
        proof {
            lemma_pump(self.view_tasks(), self.active as nat);
            assert(pump_started(self.view_tasks(), self.active as nat) =~= Seq::<TaskView>::empty());
            assert(starts_of(Seq::<TaskView>::empty()) =~= Seq::empty());
            assert(starts_view(starts@) + Seq::empty() =~= starts_view(starts@));
        }
        starts
    }
}

} // verus!

verus! {

/// The characters the first `n` bytes of a string's UTF-8 encoding spell.
pub open spec fn byte_prefix(s: Seq<char>, n: nat) -> Seq<char> {
    let bytes = encode_utf8(s);
    decode_utf8(bytes.take(if bytes.len() < n { bytes.len() as int } else { n as int }))
}

/// How many bytes of a content id the fallback label keeps.
pub open spec fn label_cut(file_id: Seq<char>) -> int {
    let len = encode_utf8(file_id).len();
    if len < 8 {
        len as int
    } else {
        8
    }
}

/// Whether an entry label has something besides white space.
pub open spec fn has_label(entry_label: Option<Seq<char>>) -> bool {
    entry_label is Some && trim(entry_label->0).len() > 0
}

/// The task's display name: the trimmed entry label, or the content id's
/// first eight bytes and an ellipsis; numbered `(i/n)` within a batch of
/// several files.
pub open spec fn task_label_of(entry_label: Option<Seq<char>>, index: nat, total: nat, file_id: Seq<char>) -> Seq<
    char,
> {
    let name = if has_label(entry_label) {
        trim(entry_label->0)
    } else {
        byte_prefix(file_id, 8) + "…"@
    };
    if total > 1 {
        name + " ("@ + decimal(index + 1) + "/"@ + decimal(total) + ")"@
    } else {
        name
    }
}

/// The display name of a download task.
pub fn task_label(entry_label: Option<&str>, index: usize, total: usize, file_id: &str) -> (label: String)
    requires
        index < usize::MAX,
        !has_label(opt_str_view(entry_label)) ==> is_char_boundary(
            encode_utf8(file_id@),
            label_cut(file_id@),
        ),
    ensures
        label@ == task_label_of(opt_str_view(entry_label), index as nat, total as nat, file_id@),
{
    let trimmed_label = match entry_label {
        Some(l) => {
            let cs = chars_of(l);
            let t = trimmed(cs.as_slice());
            if t.len() > 0 {
                Some(string_from_chars(t.as_slice()))
            } else {
                None
            }
        },
        None => None,
    };
    assert(trimmed_label is Some <==> has_label(opt_str_view(entry_label)));
    assert(trimmed_label is Some ==> trimmed_label->0@ == trim(opt_str_view(entry_label)->0));
    let mut name = match trimmed_label {
        Some(n) => n,
        None => {
            let len = file_id.as_bytes().len();
            let cut = if len < 8 {
                len
            } else {
                8
            };
            assert(file_id.spec_bytes() == encode_utf8(file_id@));
            assert(cut as int == label_cut(file_id@));
            let (head, _) = file_id.split_at(cut);
            proof {
                broadcast use vstd::utf8::encode_utf8_decode_utf8;
                assert(decode_utf8(encode_utf8(head@)) == head@);
                assert(encode_utf8(head@) == head.spec_bytes());
                assert(head@ == byte_prefix(file_id@, 8));
            }
            let mut n = owned(head);
            append_str(&mut n, "…");
            n
        },
    };
    if total > 1 {
        append_str(&mut name, " (");
        let a = decimal_string((index + 1) as u64);
        append_str(&mut name, a.as_str());
        append_str(&mut name, "/");
        let b = decimal_string(total as u64);
        append_str(&mut name, b.as_str());
        append_str(&mut name, ")");
    }
    name
}

pub open spec fn opt_str_view(o: Option<&str>) -> Option<Seq<char>> {
    match o {
        Some(s) => Some(s@),
        None => None,
    }
}

} // verus!

verus! {

pub open spec fn requests_view(files: Seq<DownloadRequest>) -> Seq<(Seq<char>, u64)> {
    Seq::new(files.len(), |i: int| (files[i].file_id@, files[i].size))
}

pub open spec fn strings_of(v: Seq<String>) -> Seq<Seq<char>> {
    Seq::new(v.len(), |i: int| v[i]@)
}

/// Index of the active task with this key, or `-1`: the in-flight map.
pub open spec fn inflight_index(ts: Seq<TaskView>, save_id: Option<Seq<char>>, file_id: Seq<char>) -> int
    decreases ts.len(),
{
    if ts.len() == 0 {
        -1
    } else if inflight_index(ts.drop_last(), save_id, file_id) >= 0 {
        inflight_index(ts.drop_last(), save_id, file_id)
    } else if status_active(ts.last().status) && ts.last().save_id == save_id && ts.last().file_id
        == file_id {
        ts.len() - 1
    } else {
        -1
    }
}

pub proof fn lemma_inflight_index(ts: Seq<TaskView>, save_id: Option<Seq<char>>, file_id: Seq<char>)
    ensures
        -1 <= inflight_index(ts, save_id, file_id) < ts.len(),
        inflight_index(ts, save_id, file_id) >= 0 ==> status_active(
            ts[inflight_index(ts, save_id, file_id)].status,
        ) && ts[inflight_index(ts, save_id, file_id)].save_id == save_id
            && ts[inflight_index(ts, save_id, file_id)].file_id == file_id,
        inflight_index(ts, save_id, file_id) < 0 ==> forall|i: int|
            0 <= i < ts.len() && status_active(#[trigger] ts[i].status) ==> !(ts[i].save_id == save_id
                && ts[i].file_id == file_id),
    decreases ts.len(),
{
    if ts.len() > 0 {
        lemma_inflight_index(ts.drop_last(), save_id, file_id);
        if inflight_index(ts, save_id, file_id) < 0 {
            assert forall|i: int| 0 <= i < ts.len() && status_active(#[trigger] ts[i].status) implies !(
            ts[i].save_id == save_id && ts[i].file_id == file_id) by {
                if i < ts.len() - 1 {
                    assert(ts.drop_last()[i] == ts[i]);
                }
            }
        }
    }
}

/// A freshly enqueued task.
pub open spec fn new_task_view(
    id: Seq<char>,
    batch_id: u64,
    entry_id: Seq<char>,
    file: (Seq<char>, u64),
    save_id: Option<Seq<char>>,
    label: Seq<char>,
) -> TaskView {
    TaskView {
        id,
        batch_id,
        entry_id,
        file_id: file.0,
        save_id,
        label,
        size: file.1,
        status: DownloadStatus::Queued,
        received_bytes: 0,
        error: None,
        started: false,
        finished: false,
    }
}

/// The table after a batch is enqueued (before pumping): a file whose key
/// is already in flight joins that task, any other becomes a new queued task.
pub open spec fn enqueue_tasks(
    ts: Seq<TaskView>,
    entry_id: Seq<char>,
    files: Seq<(Seq<char>, u64)>,
    save_id: Option<Seq<char>>,
    entry_label: Option<Seq<char>>,
    total: nat,
    ids: Seq<Seq<char>>,
    batch_id: u64,
) -> Seq<TaskView>
    decreases files.len(),
{
    if files.len() == 0 {
        ts
    } else {
        let prev = enqueue_tasks(ts, entry_id, files.drop_last(), save_id, entry_label, total, ids, batch_id);
        let n = files.len() - 1;
        let f = files.last();
        if inflight_index(prev, save_id, f.0) >= 0 {
            prev
        } else {
            prev.push(
                new_task_view(ids[n], batch_id, entry_id, f, save_id, task_label_of(entry_label, n as nat, total, f.0)),
            )
        }
    }
}

/// The task each file of the batch is served by, in file order.
pub open spec fn enqueue_watchers(
    ts: Seq<TaskView>,
    entry_id: Seq<char>,
    files: Seq<(Seq<char>, u64)>,
    save_id: Option<Seq<char>>,
    entry_label: Option<Seq<char>>,
    total: nat,
    ids: Seq<Seq<char>>,
    batch_id: u64,
) -> Seq<Seq<char>>
    decreases files.len(),
{
    if files.len() == 0 {
        Seq::empty()
    } else {
        let prev = enqueue_tasks(ts, entry_id, files.drop_last(), save_id, entry_label, total, ids, batch_id);
        let w = enqueue_watchers(ts, entry_id, files.drop_last(), save_id, entry_label, total, ids, batch_id);
        let n = files.len() - 1;
        let k = inflight_index(prev, save_id, files.last().0);
        if k >= 0 {
            w.push(prev[k].id)
        } else {
            w.push(ids[n])
        }
    }
}

/// What a caller must hand to `enqueue_batch`: one fresh task id per file,
/// no two alike and none already in the table, and content ids the fallback
/// label can cut.
pub open spec fn enqueue_ready(
    ts: Seq<TaskView>,
    files: Seq<(Seq<char>, u64)>,
    entry_label: Option<Seq<char>>,
    ids: Seq<Seq<char>>,
) -> bool {
    &&& ids.len() == files.len()
    &&& forall|a: int, b: int| 0 <= a < b < ids.len() ==> #[trigger] ids[a] != #[trigger] ids[b]
    &&& forall|a: int, i: int| 0 <= a < ids.len() && 0 <= i < ts.len() ==> #[trigger] ids[a] != #[trigger] ts[i].id
    &&& !has_label(entry_label) ==> forall|a: int|
        0 <= a < files.len() ==> is_char_boundary(encode_utf8(#[trigger] files[a].0), label_cut(files[a].0))
}

impl Downloader {
    fn find_inflight(&self, save_id: &Option<String>, file_id: &String) -> (r: Option<usize>)
        ensures
            match r {
                Some(k) => k as int == inflight_index(self.view_tasks(), opt_string_view(*save_id), file_id@),
                None => inflight_index(self.view_tasks(), opt_string_view(*save_id), file_id@) < 0,
            },
    {
        let ghost v = self.view_tasks();
        let ghost sv = opt_string_view(*save_id);
        proof {
            lemma_inflight_index(v, sv, file_id@);
        }
        let mut i: usize = 0;
        while i < self.tasks.len()
            invariant
                i <= self.tasks.len(),
                v == self.view_tasks(),
                v.len() == self.tasks.len(),
                sv == opt_string_view(*save_id),
                forall|j: int| 0 <= j < i && status_active(#[trigger] v[j].status) ==> !(v[j].save_id == sv
                    && v[j].file_id == file_id@),
                -1 <= inflight_index(v, sv, file_id@) < v.len(),
                inflight_index(v, sv, file_id@) >= 0 ==> status_active(v[inflight_index(v, sv, file_id@)].status)
                    && v[inflight_index(v, sv, file_id@)].save_id == sv && v[inflight_index(v, sv, file_id@)].file_id
                    == file_id@,
            decreases self.tasks.len() - i,
        {
            assert(v[i as int] == task_view(self.tasks@[i as int]));
            let same_save = match (&self.tasks[i].save_id, save_id) {
                (Some(a), Some(b)) => *a == *b,
                (None, None) => true,
                _ => false,
            };
            if is_active(self.tasks[i].status) && same_save && self.tasks[i].file_id == *file_id {
                proof {
                    let f = inflight_index(v, sv, file_id@);
                    if f >= 0 && f < i {
                        assert(status_active(v[f].status));
                    }
                    lemma_inflight_unique_first(v, sv, file_id@, i as int);
                }
                return Some(i);
            }
            i = i + 1;
        }
        None
    }
}

proof fn lemma_inflight_unique_first(ts: Seq<TaskView>, save_id: Option<Seq<char>>, file_id: Seq<char>, i: int)
    requires
        0 <= i < ts.len(),
        status_active(ts[i].status) && ts[i].save_id == save_id && ts[i].file_id == file_id,
        forall|j: int| 0 <= j < i && status_active(#[trigger] ts[j].status) ==> !(ts[j].save_id == save_id
            && ts[j].file_id == file_id),
    ensures
        inflight_index(ts, save_id, file_id) == i,
    decreases ts.len(),
{
    if i < ts.len() - 1 {
        assert forall|j: int| 0 <= j < i && status_active(#[trigger] ts.drop_last()[j].status) implies !(
        ts.drop_last()[j].save_id == save_id && ts.drop_last()[j].file_id == file_id) by {
            assert(ts.drop_last()[j] == ts[j]);
        }
        lemma_inflight_unique_first(ts.drop_last(), save_id, file_id, i);
    } else {
        lemma_inflight_index(ts.drop_last(), save_id, file_id);
        if inflight_index(ts.drop_last(), save_id, file_id) >= 0 {
            let f = inflight_index(ts.drop_last(), save_id, file_id);
            assert(ts.drop_last()[f] == ts[f]);
        }
    }
}

} // verus!

verus! {

impl Downloader {
    /// Enqueues a batch of files and starts what fits.
    /// A file whose `(save id, content id)` is already in flight joins that
    /// task; every other file becomes a queued task with the next fresh id.
    /// Returns the task serving each file, in file order, and the transfers
    /// that were started.
    pub fn enqueue_batch(
        &mut self,
        entry_id: &str,
        files: &Vec<DownloadRequest>,
        save_id: Option<String>,
        entry_label: Option<&str>,
        fresh_ids: &Vec<String>,
    ) -> (result: (Vec<String>, Vec<TaskStart>))
        requires
            old(self).wf(),
            old(self).next_batch_id < u64::MAX,
            enqueue_ready(
                old(self).view_tasks(),
                requests_view(files@),
                opt_str_view(entry_label),
                strings_of(fresh_ids@),
            ),
        ensures
            ({
                let queued = enqueue_tasks(
                    old(self).view_tasks(),
                    entry_id@,
                    requests_view(files@),
                    opt_string_view(save_id),
                    opt_str_view(entry_label),
                    files@.len(),
                    strings_of(fresh_ids@),
                    old(self).next_batch_id,
                );
                &&& final(self).view_tasks() == pump_tasks(queued, old(self).active as nat)
                &&& final(self).active == pump_active(queued, old(self).active as nat)
                &&& starts_view(result.1@) == starts_of(pump_started(queued, old(self).active as nat))
            }),
            strings_of(result.0@) == enqueue_watchers(
                old(self).view_tasks(),
                entry_id@,
                requests_view(files@),
                opt_string_view(save_id),
                opt_str_view(entry_label),
                files@.len(),
                strings_of(fresh_ids@),
                old(self).next_batch_id,
            ),
            final(self).next_batch_id == old(self).next_batch_id + 1,
            final(self).wf(),
    {
        let ghost v0 = self.view_tasks();
        let ghost fv = requests_view(files@);
        let ghost sv = opt_string_view(save_id);
        let ghost lv = opt_str_view(entry_label);
        let ghost ids = strings_of(fresh_ids@);
        let ghost total = files@.len();
        let batch_id = self.next_batch_id;
        self.next_batch_id = self.next_batch_id + 1;
        let mut watchers: Vec<String> = Vec::new();
        let mut i: usize = 0;
        proof {
            assert(fv.take(0) =~= Seq::<(Seq<char>, u64)>::empty());
            assert(strings_of(watchers@) =~= Seq::<Seq<char>>::empty());
        }
        while i < files.len()
            invariant
                i <= files.len(),
                v0 == old(self).view_tasks(),
                fv == requests_view(files@),
                sv == opt_string_view(save_id),
                lv == opt_str_view(entry_label),
                ids == strings_of(fresh_ids@),
                total == files@.len(),
                batch_id == old(self).next_batch_id,
                self.next_batch_id == batch_id + 1,
                self.active == old(self).active,
                enqueue_ready(v0, fv, lv, ids),
                tasks_wf_core(self.view_tasks(), self.active as nat),
                self.view_tasks() == enqueue_tasks(v0, entry_id@, fv.take(i as int), sv, lv, total, ids, batch_id),
                strings_of(watchers@) == enqueue_watchers(v0, entry_id@, fv.take(i as int), sv, lv, total, ids, batch_id),
                self.view_tasks().len() >= v0.len(),
                forall|k: int| 0 <= k < v0.len() ==> #[trigger] self.view_tasks()[k] == v0[k],
                forall|k: int|
                    v0.len() <= k < self.view_tasks().len() ==> exists|a: int|
                        0 <= a < i && #[trigger] self.view_tasks()[k].id == ids[a],
            decreases files.len() - i,
        {
            let ghost prev = self.view_tasks();
            proof {
                assert(fv.take(i + 1).drop_last() =~= fv.take(i as int));
                assert(fv.take(i + 1).last() == fv[i as int]);
                lemma_inflight_index(prev, sv, fv[i as int].0);
            }
            let found = self.find_inflight(&save_id, &files[i].file_id);
            match found {
                Some(k) => {
                    watchers.push(self.tasks[k].id.clone());
                    assert(strings_of(watchers@) =~= enqueue_watchers(
                        v0,
                        entry_id@,
                        fv.take(i + 1),
                        sv,
                        lv,
                        total,
                        ids,
                        batch_id,
                    ));
                },
                None => {
                    assert(ids[i as int] == fresh_ids@[i as int]@);
                    let label = task_label(entry_label, i, files.len(), files[i].file_id.as_str());
                    let task = DownloadTask {
                        id: fresh_ids[i].clone(),
                        batch_id,
                        entry_id: owned(entry_id),
                        file_id: files[i].file_id.clone(),
                        save_id: clone_opt(&save_id),
                        label,
                        size: files[i].size,
                        status: DownloadStatus::Queued,
                        received_bytes: 0,
                        error: None,
                        started: false,
                        finished: false,
                    };
                    let ghost nt = task_view(task);
                    self.tasks.push(task);
                    watchers.push(fresh_ids[i].clone());
                    proof {
                        let cur = self.view_tasks();
                        assert(cur =~= prev.push(nt));
                        assert(cur.drop_last() =~= prev);
                        assert(strings_of(watchers@) =~= enqueue_watchers(
                            v0,
                            entry_id@,
                            fv.take(i + 1),
                            sv,
                            lv,
                            total,
                            ids,
                            batch_id,
                        ));
                        assert forall|a: int, b: int| 0 <= a < b < cur.len() implies #[trigger] cur[a].id
                            != #[trigger] cur[b].id by {
                            if b == cur.len() - 1 {
                                if a < v0.len() {
                                    assert(cur[a] == v0[a]);
                                } else {
                                    let c = choose|c: int| 0 <= c < i && #[trigger] prev[a].id == ids[c];
                                    assert(ids[c] != ids[i as int]);
                                }
                            } else {
                                assert(cur[a] == prev[a] && cur[b] == prev[b]);
                            }
                        }
                        assert forall|a: int, b: int|
                            0 <= a < b < cur.len() && status_active(#[trigger] cur[a].status) && status_active(
                                #[trigger] cur[b].status,
                            ) implies !same_key(cur[a], cur[b]) by {
                            if b == cur.len() - 1 {
                                assert(cur[a] == prev[a]);
                            } else {
                                assert(cur[a] == prev[a] && cur[b] == prev[b]);
                            }
                        }
                        assert forall|k: int|
                            v0.len() <= k < cur.len() implies exists|a: int|
                                0 <= a < i + 1 && #[trigger] cur[k].id == ids[a] by {
                            if k == cur.len() - 1 {
                                assert(cur[k].id == ids[i as int]);
                            } else {
                                assert(cur[k] == prev[k]);
                                let c = choose|c: int| 0 <= c < i && #[trigger] prev[k].id == ids[c];
                                assert(cur[k].id == ids[c]);
                            }
                        }
                    }
                },
            }
            i = i + 1;
        }
        assert(fv.take(files.len() as int) =~= fv);
        let starts = self.pump();
        (watchers, starts)
    }
}

} // verus!

verus! {

/// Index of the first task with this id, or `-1`.
pub open spec fn task_index(ts: Seq<TaskView>, id: Seq<char>) -> int
    decreases ts.len(),
{
    if ts.len() == 0 {
        -1
    } else if task_index(ts.drop_last(), id) >= 0 {
        task_index(ts.drop_last(), id)
    } else if ts.last().id == id {
        ts.len() - 1
    } else {
        -1
    }
}

pub proof fn lemma_task_index(ts: Seq<TaskView>, id: Seq<char>)
    ensures
        -1 <= task_index(ts, id) < ts.len(),
        task_index(ts, id) >= 0 ==> ts[task_index(ts, id)].id == id,
        task_index(ts, id) < 0 ==> forall|i: int| 0 <= i < ts.len() ==> #[trigger] ts[i].id != id,
        forall|i: int| 0 <= i < task_index(ts, id) ==> #[trigger] ts[i].id != id,
    decreases ts.len(),
{
    if ts.len() > 0 {
        lemma_task_index(ts.drop_last(), id);
        assert forall|i: int| 0 <= i < ts.len() && (task_index(ts, id) < 0 || i < task_index(ts, id)) implies #[trigger] ts[i].id
            != id by {
            if i < ts.len() - 1 {
                assert(ts.drop_last()[i] == ts[i]);
            }
        }
    }
}

impl Downloader {
    fn find_task(&self, task_id: &str) -> (r: Option<usize>)
        ensures
            match r {
                Some(k) => k as int == task_index(self.view_tasks(), task_id@),
                None => task_index(self.view_tasks(), task_id@) < 0,
            },
    {
        let ghost v = self.view_tasks();
        proof {
            lemma_task_index(v, task_id@);
        }
        let wanted = owned(task_id);
        let mut i: usize = 0;
        while i < self.tasks.len()
            invariant
                i <= self.tasks.len(),
                v == self.view_tasks(),
                v.len() == self.tasks.len(),
                wanted@ == task_id@,
                forall|j: int| 0 <= j < i ==> #[trigger] v[j].id != task_id@,
                -1 <= task_index(v, task_id@) < v.len(),
                task_index(v, task_id@) >= 0 ==> v[task_index(v, task_id@)].id == task_id@,
                task_index(v, task_id@) < 0 ==> forall|j: int| 0 <= j < v.len() ==> #[trigger] v[j].id != task_id@,
            decreases self.tasks.len() - i,
        {
            assert(v[i as int] == task_view(self.tasks@[i as int]));
            if self.tasks[i].id == wanted {
                proof {
                    let f = task_index(v, task_id@);
                    assert(v[i as int].id == task_id@);
                    if f >= 0 && f < i {
                        assert(v[f].id == task_id@);
                    }
                    if f > i {
                        lemma_task_index(v, task_id@);
                        assert(v[i as int].id != task_id@);
                    }
                }
                return Some(i);
            }
            i = i + 1;
        }
        None
    }
}

/// A task cancelled for `reason`.
pub open spec fn cancelled_task(t: TaskView, reason: Seq<char>) -> TaskView {
    TaskView { status: DownloadStatus::Cancelled, error: Some(reason), received_bytes: 0, ..t }
}

proof fn lemma_cancel_step(ts: Seq<TaskView>, active: nat, k: int, reason: Seq<char>)
    requires
        tasks_wf(ts, active),
        0 <= k < ts.len(),
        status_active(ts[k].status),
    ensures
        tasks_wf(ts.update(k, cancelled_task(ts[k], reason)), active),
{
    let t = cancelled_task(ts[k], reason);
    let ts2 = ts.update(k, t);
    lemma_count_slots_update(ts, k, t);
    lemma_queued_len_update(ts, k, t);
    assert forall|i: int, j: int| 0 <= i < j < ts2.len() implies #[trigger] ts2[i].id != #[trigger] ts2[j].id by {
        assert(ts2[i].id == ts[i].id && ts2[j].id == ts[j].id);
    }
    assert forall|i: int, j: int|
        0 <= i < j < ts2.len() && status_active(#[trigger] ts2[i].status) && status_active(
            #[trigger] ts2[j].status,
        ) implies !same_key(ts2[i], ts2[j]) by {
        assert(status_active(ts[i].status) && status_active(ts[j].status));
    }
}

/// Which tasks a bulk cancel reaches.
pub enum CancelScope {
    Entry(String),
    Save(String),
    All,
}

/// A cancel scope taken by value.
pub enum ScopeView {
    Entry(Seq<char>),
    Save(Seq<char>),
    All,
}

pub open spec fn scope_view(scope: CancelScope) -> ScopeView {
    match scope {
        CancelScope::Entry(e) => ScopeView::Entry(e@),
        CancelScope::Save(s) => ScopeView::Save(s@),
        CancelScope::All => ScopeView::All,
    }
}

pub open spec fn in_scope(scope: ScopeView, t: TaskView) -> bool {
    match scope {
        ScopeView::Entry(e) => t.entry_id == e,
        ScopeView::Save(s) => t.save_id == Some(s),
        ScopeView::All => true,
    }
}

/// The table after every active task in scope is cancelled for `reason`.
pub open spec fn cancel_in_scope(ts: Seq<TaskView>, scope: ScopeView, reason: Seq<char>) -> Seq<TaskView> {
    Seq::new(
        ts.len(),
        |i: int|
            if status_active(ts[i].status) && in_scope(scope, ts[i]) {
                cancelled_task(ts[i], reason)
            } else {
                ts[i]
            },
    )
}

/// How many active tasks a bulk cancel reaches.
pub open spec fn count_in_scope(ts: Seq<TaskView>, scope: ScopeView) -> nat
    decreases ts.len(),
{
    if ts.len() == 0 {
        0
    } else {
        count_in_scope(ts.drop_last(), scope) + if status_active(ts.last().status) && in_scope(scope, ts.last()) {
            1nat
        } else {
            0nat
        }
    }
}

/// The tasks of entry `e` that are still queued or downloading.
pub open spec fn is_active_task_of(e: Seq<char>) -> spec_fn(TaskView) -> bool {
    |t: TaskView| t.entry_id == e && (t.status == DownloadStatus::Queued || t.status == DownloadStatus::Downloading)
}

proof fn lemma_entry_count_is_active_tasks(ts: Seq<TaskView>, e: Seq<char>)
    ensures
        count_in_scope(ts, ScopeView::Entry(e)) == ts.filter(is_active_task_of(e)).len(),
    decreases ts.len(),
{
    reveal(Seq::filter);
    if ts.len() > 0 {
        lemma_entry_count_is_active_tasks(ts.drop_last(), e);
    }
}

/// Cancelling an entry stops every one of its tasks that is queued or
/// downloading, waiting ones included: afterwards none of the entry's tasks
/// is active, each of them that was active is cancelled with "已取消" and its
/// progress reset, every other task is untouched, and the count returned is
/// the number of the entry's active tasks before the call.
pub proof fn law_cancel_entry_stops_every_active_task_of_the_entry(ts: Seq<TaskView>, e: Seq<char>)
    ensures
        ({
            let after = cancel_in_scope(ts, ScopeView::Entry(e), "已取消"@);
            &&& after.len() == ts.len()
            &&& forall|i: int|
                0 <= i < ts.len() && #[trigger] after[i].entry_id == e ==> after[i].status != DownloadStatus::Queued
                    && after[i].status != DownloadStatus::Downloading
            &&& forall|i: int|
                0 <= i < ts.len() && ts[i].entry_id == e && (ts[i].status == DownloadStatus::Queued || ts[i].status
                    == DownloadStatus::Downloading) ==> #[trigger] after[i] == (TaskView {
                    status: DownloadStatus::Cancelled,
                    error: Some("已取消"@),
                    received_bytes: 0,
                    ..ts[i]
                })
            &&& forall|i: int| 0 <= i < ts.len() && ts[i].entry_id != e ==> #[trigger] after[i] == ts[i]
            &&& count_in_scope(ts, ScopeView::Entry(e)) == ts.filter(is_active_task_of(e)).len()
        }),
{
    lemma_entry_count_is_active_tasks(ts, e);
}

/// Cancelling a save session stops every one of its queued or downloading
/// tasks and leaves the tasks of other sessions, and those of no session,
/// as they were.
pub proof fn law_cancel_save_stops_every_active_task_of_the_session(ts: Seq<TaskView>, save: Seq<char>, reason: Seq<char>)
    ensures
        ({
            let after = cancel_in_scope(ts, ScopeView::Save(save), reason);
            &&& after.len() == ts.len()
            &&& forall|i: int|
                0 <= i < ts.len() && #[trigger] after[i].save_id == Some(save) ==> after[i].status
                    != DownloadStatus::Queued && after[i].status != DownloadStatus::Downloading
            &&& forall|i: int| 0 <= i < ts.len() && ts[i].save_id != Some(save) ==> #[trigger] after[i] == ts[i]
        }),
{
}

/// Stopping everything leaves no task queued or downloading, and finished
/// tasks keep their outcome.
pub proof fn law_stop_all_leaves_nothing_running(ts: Seq<TaskView>, reason: Seq<char>)
    ensures
        ({
            let after = cancel_in_scope(ts, ScopeView::All, reason);
            &&& after.len() == ts.len()
            &&& forall|i: int|
                0 <= i < ts.len() ==> #[trigger] after[i].status != DownloadStatus::Queued && after[i].status
                    != DownloadStatus::Downloading
            &&& forall|i: int|
                0 <= i < ts.len() && ts[i].status != DownloadStatus::Queued && ts[i].status
                    != DownloadStatus::Downloading ==> #[trigger] after[i] == ts[i]
        }),
{
}

proof fn lemma_count_in_scope_take(ts: Seq<TaskView>, scope: ScopeView, i: int)
    requires
        0 <= i < ts.len(),
    ensures
        count_in_scope(ts.take(i + 1), scope) == count_in_scope(ts.take(i), scope) + if status_active(ts[i].status)
            && in_scope(scope, ts[i]) {
            1nat
        } else {
            0nat
        },
        count_in_scope(ts.take(i + 1), scope) <= i + 1,
    decreases i,
{
    assert(ts.take(i + 1).drop_last() =~= ts.take(i));
    if i > 0 {
        lemma_count_in_scope_take(ts, scope, i - 1);
    } else {
        assert(ts.take(0) =~= Seq::<TaskView>::empty());
    }
}

impl Downloader {
    /// Cancels one task: only a queued or downloading task can
    /// be cancelled; it becomes `Cancelled` with `reason`, leaves the queue and
    /// the in-flight map, and its progress resets. Returns whether it was.
    pub fn cancel_task(&mut self, task_id: &str, reason: &str) -> (cancelled: bool)
        requires
            old(self).wf(),
        ensures
            final(self).wf(),
            final(self).active == old(self).active,
            final(self).next_batch_id == old(self).next_batch_id,
            ({
                let ts = old(self).view_tasks();
                let k = task_index(ts, task_id@);
                &&& cancelled == (k >= 0 && status_active(ts[k].status))
                &&& cancelled ==> final(self).view_tasks() == ts.update(k, cancelled_task(ts[k], reason@))
                &&& !cancelled ==> final(self).view_tasks() == ts
            }),
    {
        let ghost ts = self.view_tasks();
        match self.find_task(task_id) {
            None => false,
            Some(k) => {
                proof {
                    lemma_task_index(ts, task_id@);
                }
                if !is_active(self.tasks[k].status) {
                    return false;
                }
                proof {
                    lemma_cancel_step(ts, self.active as nat, k as int, reason@);
                }
                self.tasks[k].status = DownloadStatus::Cancelled;
                self.tasks[k].error = Some(owned(reason));
                self.tasks[k].received_bytes = 0;
                assert(self.view_tasks() =~= ts.update(k as int, cancelled_task(ts[k as int], reason@)));
                true
            },
        }
    }

    fn scope_matches(&self, k: usize, scope: &CancelScope) -> (b: bool)
        requires
            k < self.tasks.len(),
        ensures
            b == in_scope(scope_view(*scope), task_view(self.tasks@[k as int])),
    {
        match scope {
            CancelScope::Entry(e) => self.tasks[k].entry_id == *e,
            CancelScope::Save(s) => match &self.tasks[k].save_id {
                Some(own) => *own == *s,
                None => false,
            },
            CancelScope::All => true,
        }
    }

    /// Cancels every active task in scope for `reason`; returns how many.
    pub fn cancel_scope(&mut self, scope: &CancelScope, reason: &str) -> (count: usize)
        requires
            old(self).wf(),
        ensures
            final(self).wf(),
            final(self).active == old(self).active,
            final(self).next_batch_id == old(self).next_batch_id,
            final(self).view_tasks() == cancel_in_scope(old(self).view_tasks(), scope_view(*scope), reason@),
            count == count_in_scope(old(self).view_tasks(), scope_view(*scope)),
    {
        let ghost ts = self.view_tasks();
        let mut count: usize = 0;
        let mut i: usize = 0;
        while i < self.tasks.len()
            invariant
                i <= self.tasks.len(),
                self.tasks.len() == ts.len(),
                tasks_wf(self.view_tasks(), self.active as nat),
                self.active == old(self).active,
                self.next_batch_id == old(self).next_batch_id,
                ts == old(self).view_tasks(),
                forall|j: int|
                    0 <= j < ts.len() ==> #[trigger] self.view_tasks()[j] == if j < i && status_active(ts[j].status)
                        && in_scope(scope_view(*scope), ts[j]) {
                        cancelled_task(ts[j], reason@)
                    } else {
                        ts[j]
                    },
                count == count_in_scope(ts.take(i as int), scope_view(*scope)),
                count <= i,
            decreases self.tasks.len() - i,
        {
            let ghost cur = self.view_tasks();
            proof {
                lemma_count_in_scope_take(ts, scope_view(*scope), i as int);
            }
            assert(cur[i as int] == ts[i as int]);
            assert(cur[i as int] == task_view(self.tasks@[i as int]));
            if is_active(self.tasks[i].status) && self.scope_matches(i, scope) {
                proof {
                    lemma_cancel_step(cur, self.active as nat, i as int, reason@);
                }
                self.tasks[i].status = DownloadStatus::Cancelled;
                self.tasks[i].error = Some(owned(reason));
                self.tasks[i].received_bytes = 0;
                assert(self.view_tasks() =~= cur.update(i as int, cancelled_task(cur[i as int], reason@)));
                count = count + 1;
            }
            i = i + 1;
        }
        assert(ts.take(ts.len() as int) =~= ts);
        assert(self.view_tasks() =~= cancel_in_scope(ts, scope_view(*scope), reason@));
        count
    }

    /// Cancels every active task of an entry; returns how
    /// many were running or waiting.
    pub fn cancel_entry(&mut self, entry_id: &str) -> (count: usize)
        requires
            old(self).wf(),
        ensures
            final(self).wf(),
            final(self).active == old(self).active,
            final(self).view_tasks() == cancel_in_scope(old(self).view_tasks(), ScopeView::Entry(entry_id@), "已取消"@),
            count == count_in_scope(old(self).view_tasks(), ScopeView::Entry(entry_id@)),
    {
        let scope = CancelScope::Entry(owned(entry_id));
        self.cancel_scope(&scope, "已取消")
    }

    /// Stops every active task, when sync disconnects or the
    /// panel cancels everything; returns whether any was stopped.
    pub fn stop_all(&mut self, reason: &str) -> (any: bool)
        requires
            old(self).wf(),
        ensures
            final(self).wf(),
            final(self).active == old(self).active,
            final(self).view_tasks() == cancel_in_scope(old(self).view_tasks(), ScopeView::All, reason@),
            any == (count_in_scope(old(self).view_tasks(), ScopeView::All) > 0),
    {
        let scope = CancelScope::All;
        let count = self.cancel_scope(&scope, reason);
        count > 0
    }

    /// Stops the tasks of a cancelled save-as session;
    /// returns whether any was stopped.
    pub fn cancel_by_save_id(&mut self, save_id: &str) -> (any: bool)
        requires
            old(self).wf(),
        ensures
            final(self).wf(),
            final(self).active == old(self).active,
            final(self).view_tasks() == cancel_in_scope(old(self).view_tasks(), ScopeView::Save(save_id@), "另存为已取消"@),
            any == (count_in_scope(old(self).view_tasks(), ScopeView::Save(save_id@)) > 0),
    {
        let scope = CancelScope::Save(owned(save_id));
        let count = self.cancel_scope(&scope, "另存为已取消");
        count > 0
    }
}

} // verus!

verus! {

/// An outcome taken by value.
pub enum OutcomeView {
    Succeeded,
    Failed(Seq<char>),
    Cancelled(Seq<char>),
}

pub open spec fn outcome_view(o: TaskOutcome) -> OutcomeView {
    match o {
        TaskOutcome::Succeeded => OutcomeView::Succeeded,
        TaskOutcome::Failed(m) => OutcomeView::Failed(m@),
        TaskOutcome::Cancelled(m) => OutcomeView::Cancelled(m@),
    }
}

/// A task after its transfer reported `outcome`: the matching final status
/// and message; all bytes on success, none after a cancel.
pub open spec fn completed_task(t: TaskView, outcome: OutcomeView) -> TaskView {
    match outcome {
        OutcomeView::Succeeded => TaskView {
            status: DownloadStatus::Succeeded,
            error: None,
            received_bytes: t.size,
            finished: true,
            ..t
        },
        OutcomeView::Failed(m) => TaskView {
            status: DownloadStatus::Failed,
            error: Some(m),
            finished: true,
            ..t
        },
        OutcomeView::Cancelled(m) => TaskView {
            status: DownloadStatus::Cancelled,
            error: Some(m),
            received_bytes: 0,
            finished: true,
            ..t
        },
    }
}

/// A report may come only once per transfer.
pub open spec fn may_complete(ts: Seq<TaskView>, id: Seq<char>) -> bool {
    task_index(ts, id) >= 0 && ts[task_index(ts, id)].started ==> !ts[task_index(ts, id)].finished
}

proof fn lemma_complete_step(ts: Seq<TaskView>, active: nat, k: int, outcome: OutcomeView)
    requires
        tasks_wf(ts, active),
        0 <= k < ts.len(),
        ts[k].started ==> !ts[k].finished,
    ensures
        tasks_wf_core(
            ts.update(k, completed_task(ts[k], outcome)),
            if ts[k].started {
                (active - 1) as nat
            } else {
                active
            },
        ),
        ts[k].started ==> active >= 1,
{
    let t = completed_task(ts[k], outcome);
    let ts2 = ts.update(k, t);
    lemma_count_slots_update(ts, k, t);
    assert forall|i: int, j: int| 0 <= i < j < ts2.len() implies #[trigger] ts2[i].id != #[trigger] ts2[j].id by {
        assert(ts2[i].id == ts[i].id && ts2[j].id == ts[j].id);
    }
    assert forall|i: int, j: int|
        0 <= i < j < ts2.len() && status_active(#[trigger] ts2[i].status) && status_active(
            #[trigger] ts2[j].status,
        ) implies !same_key(ts2[i], ts2[j]) by {
        assert(status_active(ts[i].status) && status_active(ts[j].status));
    }
}

impl Downloader {
    /// Records how a transfer ended: the task takes the final
    /// status, gives its slot back if it held one, and the queue is pumped.
    /// A report for an unknown task changes nothing. Returns the transfers
    /// that were started.
    pub fn complete(&mut self, task_id: &str, outcome: TaskOutcome) -> (starts: Vec<TaskStart>)
        requires
            old(self).wf(),
            may_complete(old(self).view_tasks(), task_id@),
        ensures
            final(self).wf(),
            final(self).next_batch_id == old(self).next_batch_id,
            ({
                let ts = old(self).view_tasks();
                let k = task_index(ts, task_id@);
                let done = ts.update(k, completed_task(ts[k], outcome_view(outcome)));
                let freed = if k >= 0 && ts[k].started {
                    (old(self).active - 1) as nat
                } else {
                    old(self).active as nat
                };
                &&& k < 0 ==> final(self).view_tasks() == ts && final(self).active == old(self).active
                    && starts@.len() == 0
                &&& k >= 0 ==> final(self).view_tasks() == pump_tasks(done, freed) && final(self).active
                    == pump_active(done, freed) && starts_view(starts@) == starts_of(pump_started(done, freed))
            }),
    {
        let ghost ts = self.view_tasks();
        proof {
            lemma_task_index(ts, task_id@);
        }
        match self.find_task(task_id) {
            None => Vec::new(),
            Some(k) => {
                let ghost ov = outcome_view(outcome);
                proof {
                    lemma_complete_step(ts, self.active as nat, k as int, ov);
                }
                let started = self.tasks[k].started;
                match outcome {
                    TaskOutcome::Succeeded => {
                        self.tasks[k].status = DownloadStatus::Succeeded;
                        self.tasks[k].error = None;
                        self.tasks[k].received_bytes = self.tasks[k].size;
                    },
                    TaskOutcome::Failed(m) => {
                        self.tasks[k].status = DownloadStatus::Failed;
                        self.tasks[k].error = Some(m);
                    },
                    TaskOutcome::Cancelled(m) => {
                        self.tasks[k].status = DownloadStatus::Cancelled;
                        self.tasks[k].error = Some(m);
                        self.tasks[k].received_bytes = 0;
                    },
                }
                self.tasks[k].finished = true;
                assert(self.view_tasks() =~= ts.update(k as int, completed_task(ts[k as int], ov)));
                if started {
                    self.active = self.active - 1;
                }
                self.pump()
            },
        }
    }

    /// Records the bytes a transfer has received so far.
    pub fn progress(&mut self, task_id: &str, received_bytes: u64)
        requires
            old(self).wf(),
        ensures
            final(self).wf(),
            final(self).active == old(self).active,
            final(self).next_batch_id == old(self).next_batch_id,
            ({
                let ts = old(self).view_tasks();
                let k = task_index(ts, task_id@);
                &&& k < 0 ==> final(self).view_tasks() == ts
                &&& k >= 0 ==> final(self).view_tasks() == ts.update(
                    k,
                    TaskView { received_bytes, ..ts[k] },
                )
            }),
    {
        let ghost ts = self.view_tasks();
        proof {
            lemma_task_index(ts, task_id@);
        }
        if let Some(k) = self.find_task(task_id) {
            let ghost t = TaskView { received_bytes, ..ts[k as int] };
            proof {
                lemma_count_slots_update(ts, k as int, t);
                lemma_queued_len_update(ts, k as int, t);
            }
            self.tasks[k].received_bytes = received_bytes;
            assert(self.view_tasks() =~= ts.update(k as int, t));
            let ghost ts2 = self.view_tasks();
            assert forall|i: int, j: int| 0 <= i < j < ts2.len() implies #[trigger] ts2[i].id != #[trigger] ts2[j].id by {
                assert(ts2[i].id == ts[i].id && ts2[j].id == ts[j].id);
            }
            assert forall|i: int, j: int|
                0 <= i < j < ts2.len() && status_active(#[trigger] ts2[i].status) && status_active(
                    #[trigger] ts2[j].status,
                ) implies !same_key(ts2[i], ts2[j]) by {
                assert(status_active(ts[i].status) && status_active(ts[j].status));
            }
        }
    }

    /// Drops a finished task from the table once the panel no longer shows
    /// it (the body of the retention timer). A task that is still active, or
    /// whose transfer has not reported back, stays. Returns whether it went.
    pub fn prune(&mut self, task_id: &str) -> (removed: bool)
        requires
            old(self).wf(),
        ensures
            final(self).wf(),
            final(self).active == old(self).active,
            final(self).next_batch_id == old(self).next_batch_id,
            ({
                let ts = old(self).view_tasks();
                let k = task_index(ts, task_id@);
                &&& removed == (k >= 0 && !status_active(ts[k].status) && !holds_slot(ts[k]))
                &&& removed ==> final(self).view_tasks() == ts.remove(k)
                &&& !removed ==> final(self).view_tasks() == ts
            }),
    {
        let ghost ts = self.view_tasks();
        proof {
            lemma_task_index(ts, task_id@);
        }
        match self.find_task(task_id) {
            None => false,
            Some(k) => {
                if is_active(self.tasks[k].status) || (self.tasks[k].started && !self.tasks[k].finished) {
                    return false;
                }
                proof {
                    lemma_count_slots_remove(ts, k as int);
                }
                let _gone = self.tasks.remove(k);
                assert(self.view_tasks() =~= ts.remove(k as int));
                let ghost ts2 = self.view_tasks();
                assert forall|i: int, j: int| 0 <= i < j < ts2.len() implies #[trigger] ts2[i].id != #[trigger] ts2[j].id by {
                    let a = if i < k { i } else { i + 1 };
                    let b = if j < k { j } else { j + 1 };
                    assert(ts2[i] == ts[a] && ts2[j] == ts[b]);
                }
                assert forall|i: int, j: int|
                    0 <= i < j < ts2.len() && status_active(#[trigger] ts2[i].status) && status_active(
                        #[trigger] ts2[j].status,
                    ) implies !same_key(ts2[i], ts2[j]) by {
                    let a = if i < k { i } else { i + 1 };
                    let b = if j < k { j } else { j + 1 };
                    assert(ts2[i] == ts[a] && ts2[j] == ts[b]);
                }
                assert forall|i: int| 0 <= i < ts2.len() && #[trigger] ts2[i].status == DownloadStatus::Queued implies !ts2[i].started
                    && !ts2[i].finished by {
                    let a = if i < k { i } else { i + 1 };
                    assert(ts2[i] == ts[a]);
                }
                assert forall|i: int| 0 <= i < ts2.len() && #[trigger] ts2[i].status == DownloadStatus::Downloading implies ts2[i].started
                    && !ts2[i].finished by {
                    let a = if i < k { i } else { i + 1 };
                    assert(ts2[i] == ts[a]);
                }
                assert forall|i: int| 0 <= i < ts2.len() && #[trigger] ts2[i].finished implies !status_active(ts2[i].status) by {
                    let a = if i < k { i } else { i + 1 };
                    assert(ts2[i] == ts[a]);
                }
                true
            },
        }
    }
}

} // verus!

verus! {

pub open spec fn count_downloading(ts: Seq<TaskView>) -> nat
    decreases ts.len(),
{
    if ts.len() == 0 {
        0
    } else {
        count_downloading(ts.drop_last()) + if ts.last().status == DownloadStatus::Downloading {
            1nat
        } else {
            0nat
        }
    }
}

proof fn lemma_downloading_hold_slots(ts: Seq<TaskView>)
    requires
        forall|i: int|
            0 <= i < ts.len() && #[trigger] ts[i].status == DownloadStatus::Downloading ==> ts[i].started
                && !ts[i].finished,
    ensures
        count_downloading(ts) <= count_slots(ts),
    decreases ts.len(),
{
    if ts.len() > 0 {
        assert forall|i: int|
            0 <= i < ts.drop_last().len() && #[trigger] ts.drop_last()[i].status == DownloadStatus::Downloading implies ts.drop_last()[i].started
                && !ts.drop_last()[i].finished by {
            assert(ts.drop_last()[i] == ts[i]);
        }
        lemma_downloading_hold_slots(ts.drop_last());
        if ts.last().status == DownloadStatus::Downloading {
            assert(ts[ts.len() - 1].status == DownloadStatus::Downloading);
        }
    }
}

/// Never more than four transfers run at once: in every state of the
/// scheduler at most four tasks are downloading.
pub proof fn law_at_most_four_downloads(ts: Seq<TaskView>, active: nat)
    requires
        tasks_wf(ts, active),
    ensures
        count_downloading(ts) <= MAX_CONCURRENT_DOWNLOADS,
{
    lemma_downloading_hold_slots(ts);
}

/// Pumping only ever starts queued tasks: every other task, cancelled or
/// finished ones included, comes out unchanged.
pub proof fn law_pump_touches_only_queued_tasks(ts: Seq<TaskView>, active: nat)
    ensures
        pump_tasks(ts, active).len() == ts.len(),
        forall|i: int|
            0 <= i < ts.len() && ts[i].status != DownloadStatus::Queued ==> #[trigger] pump_tasks(ts, active)[i]
                == ts[i],
    decreases MAX_CONCURRENT_DOWNLOADS - active,
{
    if active < MAX_CONCURRENT_DOWNLOADS && first_queued(ts) >= 0 {
        lemma_first_queued(ts);
        let k = first_queued(ts);
        let ts2 = ts.update(k, start_task(ts[k]));
        law_pump_touches_only_queued_tasks(ts2, active + 1);
        assert forall|i: int| 0 <= i < ts.len() && ts[i].status != DownloadStatus::Queued implies #[trigger] pump_tasks(
            ts,
            active,
        )[i] == ts[i] by {
            assert(ts2[i] == ts[i]);
        }
    }
}

/// Queued tasks start in the order they were enqueued: a pump never starts
/// a task while an earlier queued one keeps waiting.
pub proof fn law_queued_tasks_start_in_order(ts: Seq<TaskView>, active: nat)
    ensures
        forall|i: int, j: int|
            0 <= i < j < ts.len() && ts[i].status == DownloadStatus::Queued && ts[j].status == DownloadStatus::Queued
                && #[trigger] pump_tasks(ts, active)[j].status != DownloadStatus::Queued ==> #[trigger] pump_tasks(
                ts,
                active,
            )[i].status != DownloadStatus::Queued,
    decreases MAX_CONCURRENT_DOWNLOADS - active,
{
    if active < MAX_CONCURRENT_DOWNLOADS && first_queued(ts) >= 0 {
        lemma_first_queued(ts);
        let k = first_queued(ts);
        let ts2 = ts.update(k, start_task(ts[k]));
        law_queued_tasks_start_in_order(ts2, active + 1);
        law_pump_touches_only_queued_tasks(ts2, active + 1);
        assert(pump_tasks(ts, active) == pump_tasks(ts2, active + 1));
        assert forall|i: int, j: int|
            0 <= i < j < ts.len() && ts[i].status == DownloadStatus::Queued && ts[j].status == DownloadStatus::Queued
                && #[trigger] pump_tasks(ts, active)[j].status != DownloadStatus::Queued implies #[trigger] pump_tasks(
                ts,
                active,
            )[i].status != DownloadStatus::Queued by {
            if i == k {
                assert(ts2[k].status == DownloadStatus::Downloading);
                assert(pump_tasks(ts2, active + 1)[k] == ts2[k]);
            } else {
                assert(i > k);
                assert(ts2[i] == ts[i] && ts2[j] == ts[j]);
            }
        }
    }
}

/// A batch whose every file is already in flight creates no task: each
/// file joins the task that already serves its key.
pub proof fn law_batch_in_flight_joins_existing_tasks(
    ts: Seq<TaskView>,
    entry_id: Seq<char>,
    files: Seq<(Seq<char>, u64)>,
    save_id: Option<Seq<char>>,
    entry_label: Option<Seq<char>>,
    total: nat,
    ids: Seq<Seq<char>>,
    batch_id: u64,
)
    requires
        forall|a: int| 0 <= a < files.len() ==> inflight_index(ts, save_id, #[trigger] files[a].0) >= 0,
    ensures
        enqueue_tasks(ts, entry_id, files, save_id, entry_label, total, ids, batch_id) == ts,
        enqueue_watchers(ts, entry_id, files, save_id, entry_label, total, ids, batch_id).len() == files.len(),
        forall|a: int|
            0 <= a < files.len() ==> #[trigger] enqueue_watchers(
                ts,
                entry_id,
                files,
                save_id,
                entry_label,
                total,
                ids,
                batch_id,
            )[a] == ts[inflight_index(ts, save_id, files[a].0)].id,
    decreases files.len(),
{
    if files.len() > 0 {
        let rest = files.drop_last();
        assert forall|a: int| 0 <= a < rest.len() implies inflight_index(ts, save_id, #[trigger] rest[a].0) >= 0 by {
            assert(rest[a] == files[a]);
        }
        law_batch_in_flight_joins_existing_tasks(ts, entry_id, rest, save_id, entry_label, total, ids, batch_id);
        assert(inflight_index(ts, save_id, files[files.len() - 1].0) >= 0);
        let w = enqueue_watchers(ts, entry_id, files, save_id, entry_label, total, ids, batch_id);
        let w0 = enqueue_watchers(ts, entry_id, rest, save_id, entry_label, total, ids, batch_id);
        assert forall|a: int| 0 <= a < files.len() implies #[trigger] w[a] == ts[inflight_index(
            ts,
            save_id,
            files[a].0,
        )].id by {
            if a < files.len() - 1 {
                assert(w[a] == w0[a]);
                assert(rest[a] == files[a]);
            }
        }
    }
}

} // verus!

verus! {

// ---------------------------------------------------------------------------
// Virtual-file transfers
// ---------------------------------------------------------------------------

/// What a pasted virtual file knows about the transfer of its content.
#[derive(Clone, Debug)]
pub struct VirtualDownloadStatus {
    pub requested: bool,
    pub complete: bool,
    pub error: Option<String>,
}

/// The status of each content a virtual-file paste waits for, by content id.
pub struct VirtualDownloads {
    pub transfers: Vec<(String, VirtualDownloadStatus)>,
}

/// A transfer status taken by value: requested, complete, error.
pub type VirtualStatusView = (bool, bool, Option<Seq<char>>);

pub open spec fn virtual_status_view(s: VirtualDownloadStatus) -> VirtualStatusView {
    (s.requested, s.complete, opt_string_view(s.error))
}

pub open spec fn has_key(v: Seq<(String, VirtualDownloadStatus)>, k: Seq<char>) -> bool {
    exists|i: int| 0 <= i < v.len() && #[trigger] v[i].0@ == k
}

pub open spec fn key_slot(v: Seq<(String, VirtualDownloadStatus)>, k: Seq<char>) -> int {
    choose|i: int| 0 <= i < v.len() && #[trigger] v[i].0@ == k
}

/// The status of every content id the map knows.
pub open spec fn virtual_map(v: Seq<(String, VirtualDownloadStatus)>) -> Map<Seq<char>, VirtualStatusView> {
    Map::new(|k: Seq<char>| has_key(v, k), |k: Seq<char>| virtual_status_view(v[key_slot(v, k)].1))
}

pub open spec fn virtual_keys_unique(v: Seq<(String, VirtualDownloadStatus)>) -> bool {
    forall|i: int, j: int| 0 <= i < j < v.len() ==> #[trigger] v[i].0@ != #[trigger] v[j].0@
}

/// A status for a content id the map does not know yet (`Default`).
pub open spec fn default_virtual_status() -> VirtualStatusView {
    (false, false, None)
}

pub open spec fn virtual_get(m: Map<Seq<char>, VirtualStatusView>, k: Seq<char>) -> VirtualStatusView {
    if m.dom().contains(k) {
        m[k]
    } else {
        default_virtual_status()
    }
}

proof fn lemma_virtual_set(v: Seq<(String, VirtualDownloadStatus)>, j: int, item: (String, VirtualDownloadStatus))
    requires
        virtual_keys_unique(v),
        0 <= j < v.len(),
        v[j].0@ == item.0@,
    ensures
        virtual_keys_unique(v.update(j, item)),
        virtual_map(v.update(j, item)) == virtual_map(v).insert(item.0@, virtual_status_view(item.1)),
{
    let w = v.update(j, item);
    assert forall|a: int, b: int| 0 <= a < b < w.len() implies #[trigger] w[a].0@ != #[trigger] w[b].0@ by {
        assert(w[a].0@ == v[a].0@ && w[b].0@ == v[b].0@);
    }
    assert forall|k: Seq<char>| #[trigger] has_key(w, k) == has_key(v, k) by {
        if has_key(v, k) {
            let i = choose|i: int| 0 <= i < v.len() && #[trigger] v[i].0@ == k;
            assert(w[i].0@ == k);
        }
        if has_key(w, k) {
            let i = choose|i: int| 0 <= i < w.len() && #[trigger] w[i].0@ == k;
            assert(v[i].0@ == k);
        }
    }
    assert forall|k: Seq<char>| has_key(w, k) implies #[trigger] virtual_map(w)[k] == virtual_map(v).insert(
        item.0@,
        virtual_status_view(item.1),
    )[k] by {
        let a = key_slot(w, k);
        let b = key_slot(v, k);
        assert(w[a].0@ == k);
        assert(v[b].0@ == k);
        assert(v[a].0@ == k);
        if k == item.0@ {
            assert(a == j);
        } else {
            assert(a == b);
        }
    }
    assert(virtual_map(w) =~= virtual_map(v).insert(item.0@, virtual_status_view(item.1)));
}

proof fn lemma_virtual_push(v: Seq<(String, VirtualDownloadStatus)>, item: (String, VirtualDownloadStatus))
    requires
        virtual_keys_unique(v),
        !has_key(v, item.0@),
    ensures
        virtual_keys_unique(v.push(item)),
        virtual_map(v.push(item)) == virtual_map(v).insert(item.0@, virtual_status_view(item.1)),
{
    let w = v.push(item);
    assert forall|a: int, b: int| 0 <= a < b < w.len() implies #[trigger] w[a].0@ != #[trigger] w[b].0@ by {
        if b == v.len() {
            assert(w[a] == v[a]);
        } else {
            assert(w[a] == v[a] && w[b] == v[b]);
        }
    }
    assert forall|k: Seq<char>| #[trigger] has_key(w, k) == (has_key(v, k) || k == item.0@) by {
        if has_key(v, k) {
            let i = choose|i: int| 0 <= i < v.len() && #[trigger] v[i].0@ == k;
            assert(w[i].0@ == k);
        }
        if k == item.0@ {
            assert(w[v.len() as int].0@ == k);
        }
        if has_key(w, k) && k != item.0@ {
            let i = choose|i: int| 0 <= i < w.len() && #[trigger] w[i].0@ == k;
            assert(i < v.len());
            assert(v[i].0@ == k);
        }
    }
    assert forall|k: Seq<char>| has_key(w, k) implies #[trigger] virtual_map(w)[k] == virtual_map(v).insert(
        item.0@,
        virtual_status_view(item.1),
    )[k] by {
        let a = key_slot(w, k);
        assert(w[a].0@ == k);
        if k == item.0@ {
            if a < v.len() {
                assert(v[a].0@ == k);
            }
            assert(a == v.len());
        } else {
            let b = key_slot(v, k);
            assert(v[b].0@ == k);
            assert(a < v.len());
            assert(v[a].0@ == k);
            assert(a == b);
        }
    }
    assert(virtual_map(w) =~= virtual_map(v).insert(item.0@, virtual_status_view(item.1)));
}

impl VirtualDownloads {
    pub open spec fn wf(&self) -> bool {
        virtual_keys_unique(self.transfers@)
    }

    pub open spec fn view_map(&self) -> Map<Seq<char>, VirtualStatusView> {
        virtual_map(self.transfers@)
    }

    /// No transfer known yet.
    pub fn new() -> (d: VirtualDownloads)
        ensures
            d.wf(),
            d.view_map() == Map::<Seq<char>, VirtualStatusView>::empty(),
    {
        let d = VirtualDownloads { transfers: Vec::new() };
        assert(d.view_map() =~= Map::<Seq<char>, VirtualStatusView>::empty());
        d
    }

    fn slot_of(&self, file_id: &str) -> (r: Option<usize>)
        ensures
            match r {
                Some(j) => j < self.transfers@.len() && self.transfers@[j as int].0@ == file_id@,
                None => !has_key(self.transfers@, file_id@),
            },
    {
        let wanted = owned(file_id);
        let mut i: usize = 0;
        while i < self.transfers.len()
            invariant
                i <= self.transfers.len(),
                wanted@ == file_id@,
                forall|j: int| 0 <= j < i ==> #[trigger] self.transfers@[j].0@ != file_id@,
            decreases self.transfers.len() - i,
        {
            if self.transfers[i].0 == wanted {
                return Some(i);
            }
            i = i + 1;
        }
        None
    }

    fn store(&mut self, file_id: &str, requested: bool, complete: bool, error: Option<String>)
        requires
            old(self).wf(),
        ensures
            final(self).wf(),
            final(self).view_map() == old(self).view_map().insert(
                file_id@,
                (requested, complete, opt_string_view(error)),
            ),
    {
        let item = (owned(file_id), VirtualDownloadStatus { requested, complete, error });
        match self.slot_of(file_id) {
            Some(j) => {
                proof {
                    lemma_virtual_set(self.transfers@, j as int, item);
                }
                self.transfers.set(j, item);
            },
            None => {
                proof {
                    lemma_virtual_push(self.transfers@, item);
                }
                self.transfers.push(item);
            },
        }
    }

    fn current(&self, file_id: &str) -> (r: (bool, bool, Option<String>))
        requires
            self.wf(),
        ensures
            (r.0, r.1, opt_string_view(r.2)) == virtual_get(self.view_map(), file_id@),
    {
        match self.slot_of(file_id) {
            Some(j) => {
                proof {
                    assert(has_key(self.transfers@, file_id@));
                    let a = key_slot(self.transfers@, file_id@);
                    assert(self.transfers@[a].0@ == file_id@);
                    assert(a == j);
                }
                let s = &self.transfers[j].1;
                (s.requested, s.complete, clone_opt(&s.error))
            },
            None => (false, false, None),
        }
    }

    /// A paste asks for a content: returns whether the caller
    /// should ask for its download. Nothing is asked for a complete content,
    /// nor twice while a request stands; a failed request may be asked again.
    pub fn request(&mut self, file_id: &str) -> (ask: bool)
        requires
            old(self).wf(),
        ensures
            final(self).wf(),
            ({
                let st = virtual_get(old(self).view_map(), file_id@);
                &&& ask == (!st.1 && (st.2 is Some || !st.0))
                &&& st.1 ==> final(self).view_map() == old(self).view_map()
                &&& !st.1 ==> final(self).view_map() == old(self).view_map().insert(file_id@, (true, false, None))
            }),
    {
        let (requested, complete, error) = self.current(file_id);
        if complete {
            return false;
        }
        let ask = error.is_some() || !requested;
        self.store(file_id, true, false, None);
        ask
    }

    /// A transfer of the content starts.
    pub fn begin(&mut self, file_id: &str)
        requires
            old(self).wf(),
        ensures
            final(self).wf(),
            final(self).view_map() == old(self).view_map().insert(file_id@, (true, false, None)),
    {
        self.store(file_id, true, false, None);
    }

    /// The content arrived in full.
    pub fn complete(&mut self, file_id: &str)
        requires
            old(self).wf(),
        ensures
            final(self).wf(),
            final(self).view_map() == old(self).view_map().insert(
                file_id@,
                (virtual_get(old(self).view_map(), file_id@).0, true, None),
            ),
    {
        let (requested, _complete, _error) = self.current(file_id);
        self.store(file_id, requested, true, None);
    }

    /// The transfer failed with `error`.
    pub fn fail(&mut self, file_id: &str, error: String)
        requires
            old(self).wf(),
        ensures
            final(self).wf(),
            final(self).view_map() == old(self).view_map().insert(
                file_id@,
                (virtual_get(old(self).view_map(), file_id@).0, false, Some(error@)),
            ),
    {
        let (requested, _complete, _error) = self.current(file_id);
        self.store(file_id, requested, false, Some(error));
    }
}

} // verus!

verus! {

/// Once a request stands and nothing failed, asking again for the same
/// content does not ask for a second download.
pub proof fn law_virtual_request_asks_once(m: Map<Seq<char>, VirtualStatusView>, file_id: Seq<char>)
    ensures
        ({
            let after = if virtual_get(m, file_id).1 {
                m
            } else {
                m.insert(file_id, (true, false, None))
            };
            let st = virtual_get(after, file_id);
            !(!st.1 && (st.2 is Some || !st.0))
        }),
{
}

// ---------------------------------------------------------------------------
// Snapshot for the panel
// ---------------------------------------------------------------------------

/// One task as the panel shows it.
#[derive(Clone, Debug)]
pub struct TaskSnapshot {
    pub id: String,
    pub batch_id: u64,
    pub entry_id: String,
    pub file_id: String,
    pub save_id: Option<String>,
    pub label: String,
    pub size: u64,
    pub status: DownloadStatus,
    pub received_bytes: u64,
    pub error: Option<String>,
}

pub open spec fn snapshot_view(s: TaskSnapshot) -> TaskView {
    TaskView {
        id: s.id@,
        batch_id: s.batch_id,
        entry_id: s.entry_id@,
        file_id: s.file_id@,
        save_id: opt_string_view(s.save_id),
        label: s.label@,
        size: s.size,
        status: s.status,
        received_bytes: s.received_bytes,
        error: opt_string_view(s.error),
        started: false,
        finished: false,
    }
}

/// A task without the scheduler's own flags.
pub open spec fn public_view(t: TaskView) -> TaskView {
    TaskView { started: false, finished: false, ..t }
}

/// Display rank of a status: downloading first, then queued, then the rest.
pub open spec fn status_rank(s: DownloadStatus) -> nat {
    match s {
        DownloadStatus::Downloading => 0,
        DownloadStatus::Queued => 1,
        _ => 2,
    }
}

/// The tasks of one display rank, in table order.
pub open spec fn rank_group(ts: Seq<TaskView>, rank: nat) -> Seq<TaskView>
    decreases ts.len(),
{
    if ts.len() == 0 {
        Seq::empty()
    } else if status_rank(ts.last().status) == rank {
        rank_group(ts.drop_last(), rank).push(public_view(ts.last()))
    } else {
        rank_group(ts.drop_last(), rank)
    }
}

/// The panel's list: downloading tasks, then queued ones, then finished
/// ones, each group in table order (that is, by batch).
pub open spec fn snapshot_of(ts: Seq<TaskView>) -> Seq<TaskView> {
    rank_group(ts, 0) + rank_group(ts, 1) + rank_group(ts, 2)
}

fn rank_of(s: DownloadStatus) -> (r: u8)
    ensures
        r as nat == status_rank(s),
{
    match s {
        DownloadStatus::Downloading => 0,
        DownloadStatus::Queued => 1,
        _ => 2,
    }
}

fn snapshot_task(t: &DownloadTask) -> (s: TaskSnapshot)
    ensures
        snapshot_view(s) == public_view(task_view(*t)),
{
    TaskSnapshot {
        id: t.id.clone(),
        batch_id: t.batch_id,
        entry_id: t.entry_id.clone(),
        file_id: t.file_id.clone(),
        save_id: clone_opt(&t.save_id),
        label: t.label.clone(),
        size: t.size,
        status: t.status,
        received_bytes: t.received_bytes,
        error: clone_opt(&t.error),
    }
}

impl Downloader {
    fn push_group(&self, rank: u8, out: &mut Vec<TaskSnapshot>)
        ensures
            Seq::new(final(out)@.len(), |i: int| snapshot_view(final(out)@[i])) == Seq::new(
                old(out)@.len(),
                |i: int| snapshot_view(old(out)@[i]),
            ) + rank_group(self.view_tasks(), rank as nat),
    {
        let ghost v = self.view_tasks();
        let ghost base = Seq::new(out@.len(), |i: int| snapshot_view(out@[i]));
        let mut i: usize = 0;
        proof {
            assert(v.take(0) =~= Seq::<TaskView>::empty());
            assert(Seq::new(out@.len(), |i: int| snapshot_view(out@[i])) =~= base + rank_group(v.take(0), rank as nat));
        }
        while i < self.tasks.len()
            invariant
                i <= self.tasks.len(),
                v == self.view_tasks(),
                v.len() == self.tasks.len(),
                Seq::new(out@.len(), |i: int| snapshot_view(out@[i])) == base + rank_group(v.take(i as int), rank as nat),
            decreases self.tasks.len() - i,
        {
            assert(v.take(i + 1).drop_last() =~= v.take(i as int));
            assert(v.take(i + 1).last() == task_view(self.tasks@[i as int]));
            let ghost before = Seq::new(out@.len(), |i: int| snapshot_view(out@[i]));
            if rank_of(self.tasks[i].status) == rank {
                let s = snapshot_task(&self.tasks[i]);
                out.push(s);
                assert(Seq::new(out@.len(), |i: int| snapshot_view(out@[i])) =~= before.push(
                    public_view(task_view(self.tasks@[i as int])),
                ));
            }
            i = i + 1;
        }
        assert(v.take(v.len() as int) =~= v);
    }

    /// The list the download panel shows.
    pub fn snapshot(&self) -> (list: Vec<TaskSnapshot>)
        ensures
            Seq::new(list@.len(), |i: int| snapshot_view(list@[i])) == snapshot_of(self.view_tasks()),
    {
        let mut list: Vec<TaskSnapshot> = Vec::new();
        assert(Seq::new(list@.len(), |i: int| snapshot_view(list@[i])) =~= Seq::<TaskView>::empty());
        self.push_group(0, &mut list);
        self.push_group(1, &mut list);
        self.push_group(2, &mut list);
        assert(Seq::<TaskView>::empty() + rank_group(self.view_tasks(), 0) =~= rank_group(self.view_tasks(), 0));
        list
    }
}

} // verus!

verus! {

// ---------------------------------------------------------------------------
// Progress events
// ---------------------------------------------------------------------------

/// Byte-progress events are sent at most this often; status changes are
/// sent at once.
pub const PROGRESS_THROTTLE_MS: u64 = 200;

/// How long a finished task stays in the list so its result can be shown.
pub const TERMINAL_RETENTION_MS: u64 = 60000;

/// What to do with a progress update.
#[derive(Clone, Copy, PartialEq, Eq, Structural, Debug)]
pub enum ProgressAction {
    /// Send the task list now.
    Emit,
    /// Send it when a flush fires `PROGRESS_THROTTLE_MS` from now.
    ScheduleFlush,
    /// A flush is already on its way and will carry this update.
    Wait,
}

/// When the task list was last sent, and whether an update waits for the
/// next flush.
pub struct ProgressThrottle {
    pub last_emit_ms: Option<u64>,
    pub emit_pending: bool,
}

/// Whether a progress update at `now_ms` may be sent right away: nothing
/// was sent yet, or the last send is at least `PROGRESS_THROTTLE_MS` old.
pub open spec fn emit_due(last_emit_ms: Option<u64>, now_ms: u64) -> bool {
    match last_emit_ms {
        None => true,
        Some(last) => now_ms >= last && now_ms - last >= PROGRESS_THROTTLE_MS,
    }
}

/// The throttle taken by value: when the list was last sent, and whether
/// an update waits for a flush.
pub type ThrottleView = (Option<u64>, bool);

pub open spec fn throttle_view(t: ProgressThrottle) -> ThrottleView {
    (t.last_emit_ms, t.emit_pending)
}

/// A progress update at `now_ms`: sent when due; otherwise one flush is
/// scheduled, unless one is pending already.
pub open spec fn progress_step(s: ThrottleView, now_ms: u64) -> (ProgressAction, ThrottleView) {
    if emit_due(s.0, now_ms) {
        (ProgressAction::Emit, (Some(now_ms), false))
    } else if !s.1 {
        (ProgressAction::ScheduleFlush, (s.0, true))
    } else {
        (ProgressAction::Wait, (s.0, true))
    }
}

/// A flush firing at `now_ms`: the list is sent when an update waits.
pub open spec fn flush_step(s: ThrottleView, now_ms: u64) -> (bool, ThrottleView) {
    if s.1 {
        (true, (Some(now_ms), false))
    } else {
        (false, s)
    }
}

impl ProgressThrottle {
    /// Nothing sent yet.
    pub fn new() -> (t: ProgressThrottle)
        ensures
            throttle_view(t) == (None::<u64>, false),
    {
        ProgressThrottle { last_emit_ms: None, emit_pending: false }
    }

    /// A transfer reported bytes at `now_ms`.
    pub fn on_progress(&mut self, now_ms: u64) -> (action: ProgressAction)
        ensures
            (action, throttle_view(*final(self))) == progress_step(throttle_view(*old(self)), now_ms),
    {
        let due = match self.last_emit_ms {
            None => true,
            Some(last) => now_ms >= last && now_ms - last >= PROGRESS_THROTTLE_MS,
        };
        if due {
            self.last_emit_ms = Some(now_ms);
            self.emit_pending = false;
            ProgressAction::Emit
        } else if !self.emit_pending {
            self.emit_pending = true;
            ProgressAction::ScheduleFlush
        } else {
            ProgressAction::Wait
        }
    }

    /// A scheduled flush fired at `now_ms`; returns
    /// whether the list is sent.
    pub fn on_flush(&mut self, now_ms: u64) -> (send: bool)
        ensures
            (send, throttle_view(*final(self))) == flush_step(throttle_view(*old(self)), now_ms),
    {
        if !self.emit_pending {
            return false;
        }
        self.emit_pending = false;
        self.last_emit_ms = Some(now_ms);
        true
    }
}

/// While a flush is pending no second one is scheduled, and the update
/// stays pending until it fires.
pub proof fn law_flushes_do_not_pile_up(s: ThrottleView, now_ms: u64)
    requires
        s.1,
    ensures
        progress_step(s, now_ms).0 != ProgressAction::ScheduleFlush,
        progress_step(s, now_ms).0 != ProgressAction::Emit ==> progress_step(s, now_ms).1.1,
{
}

/// An update that is not sent at once is sent by the next flush.
pub proof fn law_throttled_updates_reach_the_next_flush(s: ThrottleView, now_ms: u64, flush_ms: u64)
    ensures
        progress_step(s, now_ms).0 != ProgressAction::Emit ==> flush_step(progress_step(s, now_ms).1, flush_ms).0,
{
}

/// After the list is sent at `t`, no update is sent right away again
/// before `PROGRESS_THROTTLE_MS` have passed.
pub proof fn law_sends_are_spaced(s: ThrottleView, t: u64, later: u64)
    requires
        progress_step(s, t).0 == ProgressAction::Emit,
        t <= later,
        later - t < PROGRESS_THROTTLE_MS,
    ensures
        progress_step(progress_step(s, t).1, later).0 != ProgressAction::Emit,
{
}

/// Whether a finished task is pruned once its retention is over:
/// unless the task is still queued or running,
/// its removal is scheduled `TERMINAL_RETENTION_MS` ahead.
pub fn should_schedule_prune(status: Option<DownloadStatus>) -> (b: bool)
    ensures
        b == !(status matches Some(s) && status_active(s)),
{
    match status {
        Some(s) => !is_active(s),
        None => true,
    }
}

} // verus!
