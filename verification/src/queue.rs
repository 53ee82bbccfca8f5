//! The queue of downloads: one batch at a time, and which of its jobs a user has stopped.

use vstd::prelude::*;

use crate::download::DownloadJob;
use crate::text::same_text;

verus! {

/// A job of the queue, and whether the user has stopped it.
#[derive(Debug)]
struct JobControl {
    id: String,
    cancelled: bool,
}

/// The queue: whether a batch is under way, and its jobs that are not done.
#[derive(Debug)]
pub struct DownloadState {
    active: bool,
    jobs: Vec<JobControl>,
}

/// The queue: whether a batch is under way, and for each job that is not done whether the user has
/// stopped it.
#[verifier::ext_equal]
pub struct QueueView {
    pub active: bool,
    pub jobs: Map<Seq<char>, bool>,
}

spec fn is_at(controls: Seq<JobControl>, id: Seq<char>, i: int) -> bool {
    0 <= i < controls.len() && controls[i].id@ == id
}

spec fn controls_map(controls: Seq<JobControl>) -> Map<Seq<char>, bool> {
    Map::new(
        |id: Seq<char>| exists|i: int| is_at(controls, id, i),
        |id: Seq<char>| controls[choose|i: int| is_at(controls, id, i)].cancelled,
    )
}

impl View for DownloadState {
    type V = QueueView;

    closed spec fn view(&self) -> QueueView {
        QueueView { active: self.active, jobs: controls_map(self.jobs@) }
    }
}

/// Something that happens to the queue.
pub enum QueueEvent {
    /// A batch is begun.
    Claim,
    /// The batch is over.
    Release,
    /// A job is put in the queue.
    Register(Seq<char>),
    /// The user stops a job.
    Cancel(Seq<char>),
    /// A job is done.
    End(Seq<char>),
}

/// The queue after something has happened to it.
pub open spec fn queue_step(queue: QueueView, event: QueueEvent) -> QueueView {
    match event {
        QueueEvent::Claim => QueueView { active: true, jobs: queue.jobs },
        QueueEvent::Release => QueueView { active: false, jobs: queue.jobs },
        QueueEvent::Register(id) => QueueView {
            active: queue.active,
            jobs: queue.jobs.insert(id, false),
        },
        QueueEvent::Cancel(id) => if queue.jobs.contains_key(id) {
            QueueView { active: queue.active, jobs: queue.jobs.insert(id, true) }
        } else {
            queue
        },
        QueueEvent::End(id) => QueueView { active: queue.active, jobs: queue.jobs.remove(id) },
    }
}

/// The queue after a sequence of events.
pub open spec fn queue_after(queue: QueueView, events: Seq<QueueEvent>) -> QueueView
    decreases events.len(),
{
    if events.len() == 0 {
        queue
    } else {
        queue_step(queue_after(queue, events.drop_last()), events.last())
    }
}

/// The queue with the first `n` of the jobs put in.
pub open spec fn registered(queue: QueueView, jobs: Seq<DownloadJob>, n: nat) -> QueueView
    decreases n,
{
    if n == 0 {
        queue
    } else {
        queue_step(
            registered(queue, jobs, (n - 1) as nat),
            QueueEvent::Register(jobs[n - 1].id@),
        )
    }
}

/// What is to be done with a job whose turn has come.
#[derive(Clone, Copy, Debug, PartialEq, Eq, Structural)]
pub enum JobTurn {
    /// It is not in the queue any more: nothing.
    Skip,
    /// It was stopped before its turn: report that.
    Cancelled,
    /// It is to be run.
    Run,
}

/// The queue as a batch goes on, after the first `done` of its jobs: the last of these is taken out,
/// and where all jobs are done, the batch is over.
pub open spec fn batch_step(queue: QueueView, jobs: Seq<DownloadJob>, done: nat) -> QueueView {
    let rest = if done > 0 {
        queue_step(queue, QueueEvent::End(jobs[done - 1].id@))
    } else {
        queue
    };
    if done == jobs.len() {
        queue_step(rest, QueueEvent::Release)
    } else {
        rest
    }
}

/// What is to be done with a job whose turn has come.
pub open spec fn turn_of(queue: QueueView, id: Seq<char>) -> JobTurn {
    if !queue.jobs.contains_key(id) {
        JobTurn::Skip
    } else if queue.jobs[id] {
        JobTurn::Cancelled
    } else {
        JobTurn::Run
    }
}

impl DownloadState {
    /// No job stands in the queue twice.
    pub closed spec fn wf(&self) -> bool {
        forall|i: int, j: int|
            0 <= i < j < self.jobs@.len() ==> self.jobs@[i].id@ != self.jobs@[j].id@
    }

    /// A queue without a batch.
    pub fn new() -> (state: DownloadState)
        ensures
            state.wf(),
            state@ == (QueueView { active: false, jobs: Map::empty() }),
    {
        let state = DownloadState { active: false, jobs: Vec::new() };
        assert(controls_map(state.jobs@) =~= Map::empty());
        state
    }

    fn position(&self, id: &str) -> (index: Option<usize>)
        requires
            self.wf(),
        ensures
            match index {
                Some(i) => is_at(self.jobs@, id@, i as int) && self@.jobs.contains_key(id@)
                    && self@.jobs[id@] == self.jobs@[i as int].cancelled,
                None => !self@.jobs.contains_key(id@),
            },
    {
        let mut i: usize = 0;
        while i < self.jobs.len()
            invariant
                self.wf(),
                i <= self.jobs@.len(),
                forall|k: int| 0 <= k < i ==> !is_at(self.jobs@, id@, k),
            decreases self.jobs@.len() - i,
        {
            if same_text(self.jobs[i].id.as_str(), id) {
                assert(is_at(self.jobs@, id@, i as int));
                return Some(i);
            }
            i += 1;
        }
        None
    }

    /// Begins a batch of the given jobs, unless there are none or another batch is under way.
    pub fn start_download(&mut self, jobs: &Vec<DownloadJob>) -> (result: Result<(), String>)
        requires
            old(self).wf(),
        ensures
            final(self).wf(),
            if jobs@.len() == 0 {
                &&& result matches Err(message) && message@ == "La cola está vacía."@
                &&& final(self)@ == old(self)@
            } else if old(self)@.active {
                &&& result matches Err(message) && message@ == "Ya hay una descarga activa."@
                &&& final(self)@ == old(self)@
            } else {
                &&& result is Ok
                &&& final(self)@ == queue_step(old(self)@, QueueEvent::Claim)
            },
    {
        if jobs.len() == 0 {
            return Err("La cola está vacía.".to_string());
        }
        if self.active {
            return Err("Ya hay una descarga activa.".to_string());
        }
        self.active = true;
        Ok(())
    }

    /// Ends the batch.
    pub fn release(&mut self)
        requires
            old(self).wf(),
        ensures
            final(self).wf(),
            final(self)@ == queue_step(old(self)@, QueueEvent::Release),
    {
        self.active = false;
    }

    fn register(&mut self, id: &str)
        requires
            old(self).wf(),
        ensures
            final(self).wf(),
            final(self)@ == queue_step(old(self)@, QueueEvent::Register(id@)),
    {
        match self.position(id) {
            Some(i) => {
                let ghost before = self.jobs@;
                let control = JobControl { id: id.to_string(), cancelled: false };
                self.jobs.set(i, control);
                proof {
                    lemma_controls_set(before, i as int, control);
                }
            },
            None => {
                let ghost before = self.jobs@;
                let control = JobControl { id: id.to_string(), cancelled: false };
                self.jobs.push(control);
                proof {
                    lemma_controls_push(before, control);
                }
            },
        }
    }

    /// Puts the jobs of a batch in the queue.
    pub fn register_jobs(&mut self, jobs: &Vec<DownloadJob>)
        requires
            old(self).wf(),
        ensures
            final(self).wf(),
            final(self)@ == registered(old(self)@, jobs@, jobs@.len()),
    {
        let mut i: usize = 0;
        while i < jobs.len()
            invariant
                self.wf(),
                i <= jobs@.len(),
                self@ == registered(old(self)@, jobs@, i as nat),
            decreases jobs@.len() - i,
        {
            self.register(jobs[i].id.as_str());
            i += 1;
        }
    }

    /// Goes on with a batch once the downloader was looked for. Where it was not found, the queue is
    /// free again.
    pub fn check_located<P>(&mut self, located: Result<P, String>) -> (result: Result<P, String>)
        requires
            old(self).wf(),
        ensures
            final(self).wf(),
            result == located,
            final(self)@ == match located {
                Ok(_) => old(self)@,
                Err(_) => queue_step(old(self)@, QueueEvent::Release),
            },
    {
        if located.is_err() {
            self.release();
        }
        located
    }

    /// Puts the jobs of a batch in the queue once the output folder was made. Where it could not be
    /// made, the user is told why, and the batch stays begun.
    pub fn enqueue(&mut self, jobs: &Vec<DownloadJob>, folder: Result<(), String>) -> (result:
        Result<(), String>)
        requires
            old(self).wf(),
        ensures
            final(self).wf(),
            match folder {
                Ok(_) => {
                    &&& result is Ok
                    &&& final(self)@ == registered(old(self)@, jobs@, jobs@.len())
                },
                Err(error) => {
                    &&& result matches Err(message) && message@
                        == "No pude crear la carpeta de salida: "@ + error@
                    &&& final(self)@ == old(self)@
                },
            },
    {
        match folder {
            Ok(()) => {
                self.register_jobs(jobs);
                Ok(())
            },
            Err(error) => {
                let mut message = "No pude crear la carpeta de salida: ".to_string();
                message.append(error.as_str());
                Err(message)
            },
        }
    }

    /// Goes on with a batch of which the first `done` jobs were handled: tells what is to be done
    /// with the next one, or ends the batch where there is none.
    pub fn next_job(&mut self, jobs: &Vec<DownloadJob>, done: usize) -> (turn: Option<JobTurn>)
        requires
            old(self).wf(),
            done <= jobs@.len(),
        ensures
            final(self).wf(),
            final(self)@ == batch_step(old(self)@, jobs@, done as nat),
            turn == if done < jobs@.len() {
                Some(turn_of(final(self)@, jobs@[done as int].id@))
            } else {
                None
            },
    {
        if done > 0 {
            self.end_job(jobs[done - 1].id.as_str());
        }
        if done < jobs.len() {
            Some(self.turn(jobs[done].id.as_str()))
        } else {
            self.release();
            None
        }
    }

    /// Tells what is to be done with a job whose turn has come.
    pub fn turn(&self, id: &str) -> (turn: JobTurn)
        requires
            self.wf(),
        ensures
            turn == turn_of(self@, id@),
    {
        match self.position(id) {
            Some(i) => if self.jobs[i].cancelled {
                JobTurn::Cancelled
            } else {
                JobTurn::Run
            },
            None => JobTurn::Skip,
        }
    }

    /// Whether a job of the queue was stopped.
    pub fn is_cancelled(&self, id: &str) -> (stopped: bool)
        requires
            self.wf(),
        ensures
            stopped == (turn_of(self@, id@) == JobTurn::Cancelled),
    {
        match self.turn(id) {
            JobTurn::Cancelled => true,
            _ => false,
        }
    }

    /// Takes a job that is done out of the queue.
    pub fn end_job(&mut self, id: &str)
        requires
            old(self).wf(),
        ensures
            final(self).wf(),
            final(self)@ == queue_step(old(self)@, QueueEvent::End(id@)),
    {
        match self.position(id) {
            Some(i) => {
                let ghost before = self.jobs@;
                let _ = self.jobs.remove(i);
                proof {
                    lemma_controls_remove(before, i as int);
                }
            },
            None => {
                assert(self@.jobs.remove(id@) =~= self@.jobs);
            },
        }
    }

    /// Stops a job of the queue; tells whether there was such a job.
    pub fn cancel_download(&mut self, id: &str) -> (found: bool)
        requires
            old(self).wf(),
        ensures
            final(self).wf(),
            found == old(self)@.jobs.contains_key(id@),
            final(self)@ == queue_step(old(self)@, QueueEvent::Cancel(id@)),
    {
        match self.position(id) {
            Some(i) => {
                let ghost before = self.jobs@;
                let control = JobControl { id: id.to_string(), cancelled: true };
                self.jobs.set(i, control);
                proof {
                    lemma_controls_set(before, i as int, control);
                }
                true
            },
            None => false,
        }
    }
}

spec fn distinct(controls: Seq<JobControl>) -> bool {
    forall|i: int, j: int|
        0 <= i < j < controls.len() ==> controls[i].id@ != controls[j].id@
}

proof fn lemma_controls_at(controls: Seq<JobControl>, i: int)
    requires
        distinct(controls),
        0 <= i < controls.len(),
    ensures
        controls_map(controls).contains_key(controls[i].id@),
        controls_map(controls)[controls[i].id@] == controls[i].cancelled,
{
    assert(is_at(controls, controls[i].id@, i));
}

proof fn lemma_controls_set(controls: Seq<JobControl>, i: int, control: JobControl)
    requires
        distinct(controls),
        is_at(controls, control.id@, i),
    ensures
        distinct(controls.update(i, control)),
        controls_map(controls.update(i, control)) == controls_map(controls).insert(
            control.id@,
            control.cancelled,
        ),
{
    let after = controls.update(i, control);
    let wanted = controls_map(controls).insert(control.id@, control.cancelled);
    assert(distinct(after));
    assert forall|id: Seq<char>| #[trigger]
        controls_map(after).contains_key(id) <==> wanted.contains_key(id) by {
        if controls_map(after).contains_key(id) {
            let k = choose|k: int| is_at(after, id, k);
            assert(is_at(controls, id, k));
        }
        if controls_map(controls).contains_key(id) {
            let k = choose|k: int| is_at(controls, id, k);
            assert(is_at(after, id, k));
        }
        assert(is_at(after, control.id@, i));
    }
    assert forall|id: Seq<char>| #[trigger] controls_map(after).contains_key(id) implies
        controls_map(after)[id] == wanted[id] by {
        let k = choose|k: int| is_at(after, id, k);
        lemma_controls_at(after, k);
        lemma_controls_at(controls, k);
        if id == control.id@ {
            lemma_controls_at(after, i);
        } else {
            assert(k != i);
        }
    }
    assert(controls_map(after) =~= wanted);
}

proof fn lemma_controls_push(controls: Seq<JobControl>, control: JobControl)
    requires
        distinct(controls),
        !controls_map(controls).contains_key(control.id@),
    ensures
        distinct(controls.push(control)),
        controls_map(controls.push(control)) == controls_map(controls).insert(
            control.id@,
            control.cancelled,
        ),
{
    let after = controls.push(control);
    let wanted = controls_map(controls).insert(control.id@, control.cancelled);
    assert forall|i: int, j: int| 0 <= i < j < after.len() implies after[i].id@ != after[j].id@ by {
        if j == controls.len() && after[i].id@ == after[j].id@ {
            assert(is_at(controls, control.id@, i));
        }
    }
    assert forall|id: Seq<char>| #[trigger]
        controls_map(after).contains_key(id) <==> wanted.contains_key(id) by {
        if controls_map(after).contains_key(id) {
            let k = choose|k: int| is_at(after, id, k);
            if k < controls.len() {
                assert(is_at(controls, id, k));
            }
        }
        if controls_map(controls).contains_key(id) {
            let k = choose|k: int| is_at(controls, id, k);
            assert(is_at(after, id, k));
        }
        assert(is_at(after, control.id@, controls.len() as int));
    }
    assert forall|id: Seq<char>| #[trigger] controls_map(after).contains_key(id) implies
        controls_map(after)[id] == wanted[id] by {
        let k = choose|k: int| is_at(after, id, k);
        lemma_controls_at(after, k);
        if k < controls.len() {
            lemma_controls_at(controls, k);
            lemma_controls_at(after, controls.len() as int);
        }
    }
    assert(controls_map(after) =~= wanted);
}

proof fn lemma_controls_remove(controls: Seq<JobControl>, i: int)
    requires
        distinct(controls),
        0 <= i < controls.len(),
    ensures
        distinct(controls.remove(i)),
        controls_map(controls.remove(i)) == controls_map(controls).remove(controls[i].id@),
{
    let after = controls.remove(i);
    let wanted = controls_map(controls).remove(controls[i].id@);
    assert forall|k: int| 0 <= k < after.len() implies #[trigger] after[k] == controls[if k < i {
        k
    } else {
        k + 1
    }] by {}
    assert(distinct(after));
    assert forall|id: Seq<char>| #[trigger]
        controls_map(after).contains_key(id) <==> wanted.contains_key(id) by {
        if controls_map(after).contains_key(id) {
            let k = choose|k: int| is_at(after, id, k);
            let source = if k < i {
                k
            } else {
                k + 1
            };
            assert(after[k] == controls[source]);
            assert(is_at(controls, id, source));
        }
        if wanted.contains_key(id) {
            let k = choose|k: int| is_at(controls, id, k);
            let target = if k < i {
                k
            } else {
                k - 1
            };
            assert(after[target] == controls[k]);
            assert(is_at(after, id, target));
        }
    }
    assert forall|id: Seq<char>| #[trigger] controls_map(after).contains_key(id) implies
        controls_map(after)[id] == wanted[id] by {
        let k = choose|k: int| is_at(after, id, k);
        let source = if k < i {
            k
        } else {
            k + 1
        };
        assert(after[k] == controls[source]);
        lemma_controls_at(after, k);
        lemma_controls_at(controls, source);
    }
    assert(controls_map(after) =~= wanted);
}

/// No event of the sequence puts the job in the queue.
pub open spec fn none_registers(events: Seq<QueueEvent>, id: Seq<char>) -> bool {
    forall|i: int| 0 <= i < events.len() ==> #[trigger] events[i] != QueueEvent::Register(id)
}

proof fn lemma_none_registers_before(events: Seq<QueueEvent>, id: Seq<char>)
    requires
        events.len() > 0,
        none_registers(events, id),
    ensures
        none_registers(events.drop_last(), id),
{
    assert forall|i: int| 0 <= i < events.len() - 1 implies #[trigger] events.drop_last()[i]
        != QueueEvent::Register(id) by {
        assert(events[i] == events.drop_last()[i]);
    }
}

/// A job that is done is not run again, nor can it be stopped, until it is put in the queue anew.
/// So a batch runs each of its jobs once, though the same job be listed twice.
pub proof fn law_ended_job_is_skipped(queue: QueueView, id: Seq<char>, events: Seq<QueueEvent>)
    requires
        none_registers(events, id),
    ensures
        turn_of(queue_after(queue_step(queue, QueueEvent::End(id)), events), id) == JobTurn::Skip,
    decreases events.len(),
{
    if events.len() > 0 {
        lemma_none_registers_before(events, id);
        law_ended_job_is_skipped(queue, id, events.drop_last());
        assert(events[events.len() - 1] == events.last());
    }
}

/// A job that the user has stopped is not run, whatever happens before its turn, unless it is put
/// in the queue anew.
pub proof fn law_cancelled_job_is_not_run(queue: QueueView, id: Seq<char>, events: Seq<QueueEvent>)
    requires
        none_registers(events, id),
    ensures
        turn_of(queue_after(queue_step(queue, QueueEvent::Cancel(id)), events), id) != JobTurn::Run,
    decreases events.len(),
{
    if events.len() > 0 {
        lemma_none_registers_before(events, id);
        law_cancelled_job_is_not_run(queue, id, events.drop_last());
        assert(events[events.len() - 1] == events.last());
    }
}

/// While a batch is under way, no other can begin: only its end makes the queue free.
pub proof fn law_one_batch_at_a_time(queue: QueueView, events: Seq<QueueEvent>)
    requires
        forall|i: int| 0 <= i < events.len() ==> #[trigger] events[i] != QueueEvent::Release,
    ensures
        queue_after(queue_step(queue, QueueEvent::Claim), events).active,
    decreases events.len(),
{
    if events.len() > 0 {
        assert forall|i: int| 0 <= i < events.len() - 1 implies #[trigger] events.drop_last()[i]
            != QueueEvent::Release by {
            assert(events[i] == events.drop_last()[i]);
        }
        law_one_batch_at_a_time(queue, events.drop_last());
        assert(events[events.len() - 1] == events.last());
    }
}

/// A job just put in the queue is run at its turn.
pub proof fn law_registered_jobs_are_run(queue: QueueView, jobs: Seq<DownloadJob>, n: nat, i: int)
    requires
        n <= jobs.len(),
        0 <= i < n,
    ensures
        turn_of(registered(queue, jobs, n), jobs[i].id@) == JobTurn::Run,
    decreases n,
{
    if i < n - 1 {
        law_registered_jobs_are_run(queue, jobs, (n - 1) as nat, i);
    }
}

/// A start that fails because the downloader is not found leaves the queue as it was.
pub proof fn law_failed_start(queue: QueueView)
    requires
        !queue.active,
    ensures
        queue_step(queue_step(queue, QueueEvent::Claim), QueueEvent::Release) == queue,
{
}

/// All events are stops by the user: while a batch is worked off, nothing else comes from outside.
pub open spec fn are_stops(events: Seq<QueueEvent>) -> bool {
    forall|i: int| 0 <= i < events.len() ==> (#[trigger] events[i]) is Cancel
}

/// The user stops the job in one of the first `n` groups of events.
pub open spec fn is_stopped(stops: Seq<Seq<QueueEvent>>, n: int, id: Seq<char>) -> bool {
    exists|k: int| 0 <= k < n && (#[trigger] stops[k]).contains(QueueEvent::Cancel(id))
}

/// The job is one of the first `n` of the list.
pub open spec fn is_among(jobs: Seq<DownloadJob>, n: int, id: Seq<char>) -> bool {
    exists|j: int| 0 <= j < n && (#[trigger] jobs[j]).id@ == id
}

/// The queue after `n` steps of a batch, where the user's stops before each step are given.
pub open spec fn batch_course(
    queue: QueueView,
    jobs: Seq<DownloadJob>,
    stops: Seq<Seq<QueueEvent>>,
    n: nat,
) -> QueueView
    decreases n,
{
    if n == 0 {
        queue
    } else {
        let before = batch_course(queue, jobs, stops, (n - 1) as nat);
        batch_step(queue_after(before, stops[n - 1]), jobs, (n - 1) as nat)
    }
}

proof fn lemma_stops(queue: QueueView, events: Seq<QueueEvent>, id: Seq<char>)
    requires
        are_stops(events),
    ensures
        queue_after(queue, events).active == queue.active,
        queue_after(queue, events).jobs.contains_key(id) == queue.jobs.contains_key(id),
        queue.jobs.contains_key(id) ==> queue_after(queue, events).jobs[id] == (queue.jobs[id]
            || events.contains(QueueEvent::Cancel(id))),
    decreases events.len(),
{
    if events.len() > 0 {
        let before = events.drop_last();
        let last = events.last();
        assert(events[events.len() - 1] == last);
        assert(are_stops(before)) by {
            assert forall|i: int| 0 <= i < before.len() implies (#[trigger] before[i]) is Cancel by {
                assert(events[i] == before[i]);
            }
        }
        lemma_stops(queue, before, id);
        let stop = QueueEvent::Cancel(id);
        assert(events.contains(stop) <==> before.contains(stop) || last == stop) by {
            if events.contains(stop) {
                let k = choose|k: int| 0 <= k < events.len() && events[k] == stop;
                if k < before.len() {
                    assert(before[k] == stop);
                }
            }
            if before.contains(stop) {
                let k = choose|k: int| 0 <= k < before.len() && before[k] == stop;
                assert(events[k] == stop);
            }
        }
    }
}

proof fn lemma_batch_course(
    queue: QueueView,
    jobs: Seq<DownloadJob>,
    stops: Seq<Seq<QueueEvent>>,
    n: nat,
    id: Seq<char>,
)
    requires
        n <= jobs.len() + 1,
        forall|k: int| 0 <= k < n ==> are_stops(#[trigger] stops[k]),
        turn_of(queue, id) == JobTurn::Run,
    ensures
        ({
            let after = batch_course(queue, jobs, stops, n);
            &&& after.active == (queue.active && n <= jobs.len())
            &&& after.jobs.contains_key(id) == !is_among(jobs, n - 1, id)
            &&& after.jobs.contains_key(id) ==> after.jobs[id] == is_stopped(stops, n as int, id)
        }),
    decreases n,
{
    if n > 0 {
        let m = (n - 1) as nat;
        lemma_batch_course(queue, jobs, stops, m, id);
        assert(are_stops(stops[m as int]));
        lemma_stops(batch_course(queue, jobs, stops, m), stops[m as int], id);
        assert(is_stopped(stops, n as int, id) <==> is_stopped(stops, m as int, id)
            || stops[m as int].contains(QueueEvent::Cancel(id))) by {
            if is_stopped(stops, n as int, id) {
                let k = choose|k: int|
                    0 <= k < n && (#[trigger] stops[k]).contains(QueueEvent::Cancel(id));
            }
        }
        assert(is_among(jobs, n - 1, id) <==> is_among(jobs, n - 2, id) || (n >= 2 && jobs[n
            - 2].id@ == id)) by {
            if is_among(jobs, n - 1, id) {
                let j = choose|j: int| 0 <= j < n - 1 && (#[trigger] jobs[j]).id@ == id;
            }
        }
    }
}

/// A batch handles its jobs in the order of the list. At its turn a job is run, unless the user has
/// stopped it by then, which is reported, or it was handled before under the same id.
pub proof fn law_batch_turns(
    queue: QueueView,
    jobs: Seq<DownloadJob>,
    stops: Seq<Seq<QueueEvent>>,
    i: int,
)
    requires
        0 <= i < jobs.len(),
        forall|k: int| 0 <= k <= i ==> are_stops(#[trigger] stops[k]),
    ensures
        turn_of(
            batch_course(
                registered(queue, jobs, jobs.len()),
                jobs,
                stops,
                (i + 1) as nat,
            ),
            jobs[i].id@,
        ) == if is_among(jobs, i, jobs[i].id@) {
            JobTurn::Skip
        } else if is_stopped(stops, i + 1, jobs[i].id@) {
            JobTurn::Cancelled
        } else {
            JobTurn::Run
        },
{
    law_registered_jobs_are_run(queue, jobs, jobs.len(), i);
    lemma_batch_course(
        registered(queue, jobs, jobs.len()),
        jobs,
        stops,
        (i + 1) as nat,
        jobs[i].id@,
    );
}

/// After the last step of a batch the queue is free, and none of the jobs of the batch is left in
/// it, whatever the user has stopped meanwhile.
pub proof fn law_batch_ends(
    queue: QueueView,
    jobs: Seq<DownloadJob>,
    stops: Seq<Seq<QueueEvent>>,
)
    requires
        forall|k: int| 0 <= k <= jobs.len() ==> are_stops(#[trigger] stops[k]),
    ensures
        ({
            let after = batch_course(
                registered(queue, jobs, jobs.len()),
                jobs,
                stops,
                jobs.len() + 1,
            );
            &&& !after.active
            &&& forall|i: int|
                0 <= i < jobs.len() ==> !after.jobs.contains_key((#[trigger] jobs[i]).id@)
        }),
{
    let start = registered(queue, jobs, jobs.len());
    let after = batch_course(start, jobs, stops, jobs.len() + 1);
    assert forall|i: int| 0 <= i < jobs.len() implies !after.jobs.contains_key(
        (#[trigger] jobs[i]).id@,
    ) by {
        law_registered_jobs_are_run(queue, jobs, jobs.len(), i);
        lemma_batch_course(start, jobs, stops, jobs.len() + 1, jobs[i].id@);
        assert(is_among(jobs, jobs.len() as int, jobs[i].id@));
    }
}

/// What a user is told of the whole batch.
#[derive(Debug)]
pub struct BatchState {
    pub active: bool,
    pub message: Option<String>,
}

/// What a user is told as the batch begins, and as it ends.
pub fn batch_state(active: bool) -> (state: BatchState)
    ensures
        state.active == active,
        state.message matches Some(message) && message@ == if active {
            "Cola iniciada."@
        } else {
            "Cola finalizada."@
        },
{
    let message = if active {
        "Cola iniciada.".to_string()
    } else {
        "Cola finalizada.".to_string()
    };
    BatchState { active, message: Some(message) }
}

} // verus!
