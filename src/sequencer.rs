//! Execution of timelines against the one actuator.
//!
//! A timeline becomes a plan: a list of actuator actions (set a duty value,
//! hold for some milliseconds). A `Worker` owns the actuator and runs the
//! plans it is given one whole job at a time, in the order they were
//! submitted; the caller performs each action it hands out and reports
//! failed writes back.
use vstd::pervasive::unreached;
use vstd::prelude::*;
use crate::command::{parse, parse_outcome, ParseError, ParseFault, Step, Timeline};
use crate::duty::{to_duty, CalibratedRange, OutOfRange, MAX_ANGLE};

verus! {

/// One thing for the actuator to do.
#[derive(Clone, Copy, Debug, PartialEq, Eq)]
pub enum Action {
    /// Write this duty value to the pulse-width output.
    SetDuty(u32),
    /// Keep the current position for this many milliseconds.
    Hold(u32),
}

/// A write to the actuator failed; the rest of the job was dropped.
#[derive(Clone, Copy, Debug, PartialEq, Eq)]
pub enum ActuatorError {
    HardwareFault,
}

/// The actions for one step: its hold, if any, then the write.
pub open spec fn step_actions(s: Step, range: CalibratedRange) -> Seq<Action> {
    let d = Action::SetDuty(range.spec_duty(s.position as int) as u32);
    match s.hold_ms {
        Some(h) => seq![Action::Hold(h), d],
        None => seq![d],
    }
}

/// The actions for a list of steps, in order.
pub open spec fn plan_of(steps: Seq<Step>, range: CalibratedRange) -> Seq<Action>
    decreases steps.len(),
{
    if steps.len() == 0 {
        Seq::empty()
    } else {
        plan_of(steps.drop_last(), range) + step_actions(steps.last(), range)
    }
}

/// The duty values written by a list of actions, in order.
pub open spec fn writes_of(actions: Seq<Action>) -> Seq<u32>
    decreases actions.len(),
{
    if actions.len() == 0 {
        Seq::empty()
    } else {
        let rest = writes_of(actions.drop_last());
        match actions.last() {
            Action::SetDuty(d) => rest.push(d),
            Action::Hold(_) => rest,
        }
    }
}

/// The milliseconds spent holding over a list of actions.
pub open spec fn hold_total(actions: Seq<Action>) -> int
    decreases actions.len(),
{
    if actions.len() == 0 {
        0
    } else {
        hold_total(actions.drop_last()) + match actions.last() {
            Action::SetDuty(_) => 0int,
            Action::Hold(h) => h as int,
        }
    }
}

/// Every step's position lies within the servo's travel.
pub open spec fn positions_in_range(steps: Seq<Step>) -> bool {
    forall|k: int| 0 <= k < steps.len() ==> (#[trigger] steps[k]).position <= MAX_ANGLE
}

/// The actuator actions that carry out `timeline`, or the first position
/// that lies outside the servo's travel; nothing is planned for a timeline
/// with such a position.
pub fn plan(timeline: &Timeline, range: &CalibratedRange) -> (r: Result<Vec<Action>, OutOfRange>)
    requires
        range.wf(),
    ensures
        r is Ok <==> positions_in_range(timeline.steps@),
        r matches Ok(v) ==> v@ == plan_of(timeline.steps@, *range),
        r matches Err(e) ==> exists|p: int|
            0 <= p < timeline.steps@.len() && (#[trigger] timeline.steps@[p]).position == e.angle
                && e.angle > MAX_ANGLE && positions_in_range(timeline.steps@.take(p)),
{
    let mut out: Vec<Action> = Vec::new();
    let mut k: usize = 0;
    while k < timeline.steps.len()
        invariant
            range.wf(),
            k <= timeline.steps@.len(),
            positions_in_range(timeline.steps@.take(k as int)),
            out@ == plan_of(timeline.steps@.take(k as int), *range),
        decreases timeline.steps@.len() - k,
    {
        let s = timeline.steps[k];
        let d = match to_duty(s.position, range) {
            Ok(d) => d,
            Err(e) => {
                assert(timeline.steps@[k as int].position == e.angle);
                return Err(e);
            },
        };
        match s.hold_ms {
            Some(h) => out.push(Action::Hold(h)),
            None => {},
        }
        out.push(Action::SetDuty(d));
        proof {
            let t = timeline.steps@.take(k + 1);
            assert(t.drop_last() =~= timeline.steps@.take(k as int));
            assert(t.last() == s);
            assert(out@ =~= plan_of(t, *range));
            assert forall|j: int| 0 <= j < t.len() implies (#[trigger] t[j]).position
                <= MAX_ANGLE by {
                if j < k {
                    assert(t[j] == timeline.steps@.take(k as int)[j]);
                }
            }
        }
        k = k + 1;
    }
    assert(timeline.steps@.take(k as int) =~= timeline.steps@);
    Ok(out)
}


/// The milliseconds that a list of steps holds in all.
pub open spec fn steps_hold(steps: Seq<Step>) -> int
    decreases steps.len(),
{
    if steps.len() == 0 {
        0
    } else {
        steps_hold(steps.drop_last()) + match steps.last().hold_ms {
            Some(h) => h as int,
            None => 0int,
        }
    }
}

proof fn lemma_writes_concat(a: Seq<Action>, b: Seq<Action>)
    ensures
        writes_of(a + b) == writes_of(a) + writes_of(b),
        hold_total(a + b) == hold_total(a) + hold_total(b),
    decreases b.len(),
{
    if b.len() == 0 {
        assert(a + b =~= a);
        assert(writes_of(a) + writes_of(b) =~= writes_of(a));
    } else {
        lemma_writes_concat(a, b.drop_last());
        assert((a + b).drop_last() =~= a + b.drop_last());
        assert((a + b).last() == b.last());
        match b.last() {
            Action::SetDuty(d) => {
                assert(writes_of(a) + writes_of(b.drop_last()).push(d) =~= (writes_of(a)
                    + writes_of(b.drop_last())).push(d));
            },
            Action::Hold(_) => {},
        }
    }
}

/// A plan writes the duty value of each step, in order, and holds for
/// exactly the steps' hold times in all.
pub proof fn lemma_plan_writes(steps: Seq<Step>, range: CalibratedRange)
    ensures
        writes_of(plan_of(steps, range)) == steps.map_values(
            |s: Step| range.spec_duty(s.position as int) as u32,
        ),
        hold_total(plan_of(steps, range)) == steps_hold(steps),
    decreases steps.len(),
{
    let f = |s: Step| range.spec_duty(s.position as int) as u32;
    if steps.len() == 0 {
        assert(steps.map_values(f) =~= Seq::<u32>::empty());
    } else {
        let u = steps.drop_last();
        lemma_plan_writes(u, range);
        let acts = step_actions(steps.last(), range);
        lemma_writes_concat(plan_of(u, range), acts);
        let d = Action::SetDuty(f(steps.last()));
        let e = Seq::<Action>::empty();
        assert(writes_of(e) == Seq::<u32>::empty() && hold_total(e) == 0);
        match steps.last().hold_ms {
            Some(h) => {
                let one = seq![Action::Hold(h)];
                assert(acts.drop_last() =~= one);
                assert(one.drop_last() =~= e);
                assert(writes_of(one) == writes_of(e));
                assert(hold_total(one) == h);
                assert(writes_of(acts) == writes_of(one).push(f(steps.last())));
                assert(hold_total(acts) == h);
            },
            None => {
                assert(acts.drop_last() =~= e);
                assert(writes_of(acts) == writes_of(e).push(f(steps.last())));
                assert(hold_total(acts) == 0);
            },
        }
        assert(writes_of(acts) =~= seq![f(steps.last())]);
        assert(steps.map_values(f) =~= u.map_values(f).push(f(steps.last())));
    }
}

/// A submitted plan and the number its submitter knows it by.
pub struct Job {
    pub id: u64,
    pub actions: Vec<Action>,
}

/// What the owner of the actuator is to do next.
#[derive(Clone, Copy, Debug, PartialEq, Eq)]
pub enum Directive {
    /// Carry out `action` for job `job`.
    Perform { job: u64, action: Action },
    /// Job `job` is over, with this outcome.
    Finished { job: u64, outcome: Result<(), ActuatorError> },
}

/// The actions handed out so far: job by job, in the order the jobs
/// started, the first `counts[k]` actions of job `k`.
pub open spec fn concat_prefixes(jobs: Seq<Seq<Action>>, counts: Seq<nat>) -> Seq<Action>
    decreases jobs.len(),
{
    if jobs.len() == 0 {
        Seq::empty()
    } else {
        concat_prefixes(jobs.drop_last(), counts.drop_last()) + jobs.last().take(
            counts.last() as int,
        )
    }
}

/// Each of the first `n` started jobs is over: all its actions were handed
/// out, or one of its writes failed.
pub open spec fn jobs_over(
    started: Seq<Seq<Action>>,
    counts: Seq<nat>,
    faults: Seq<bool>,
    n: int,
) -> bool {
    forall|k: int| 0 <= k < n ==> #[trigger] counts[k] == started[k].len() || faults[k]
}

/// The plans of a list of jobs.
pub open spec fn plans(q: Seq<Job>) -> Seq<Seq<Action>> {
    q.map_values(|j: Job| j.actions@)
}

/// The single owner of the actuator. It runs one job at a time, from its
/// first action to its last or to a failed write, and starts waiting jobs in
/// the order they were submitted.
pub struct Worker {
    queue: Vec<Job>,
    current: Option<Job>,
    pc: usize,
    failed: bool,
    /// Every plan submitted so far, in order.
    submitted: Ghost<Seq<Seq<Action>>>,
    /// The plans of the jobs started so far, in order.
    started: Ghost<Seq<Seq<Action>>>,
    /// How many actions of each started job were handed out.
    counts: Ghost<Seq<nat>>,
    /// Whether a write of each started job failed.
    faults: Ghost<Seq<bool>>,
    /// Every action handed out so far, in order.
    issued: Ghost<Seq<Action>>,
}

impl Worker {
    pub closed spec fn submitted(&self) -> Seq<Seq<Action>> {
        self.submitted@
    }

    pub closed spec fn started(&self) -> Seq<Seq<Action>> {
        self.started@
    }

    pub closed spec fn counts(&self) -> Seq<nat> {
        self.counts@
    }

    pub closed spec fn faults(&self) -> Seq<bool> {
        self.faults@
    }

    pub closed spec fn issued(&self) -> Seq<Action> {
        self.issued@
    }

    /// The plans waiting to start, in order.
    pub closed spec fn waiting(&self) -> Seq<Seq<Action>> {
        plans(self.queue@)
    }

    /// The ids of the jobs waiting to start, in order.
    pub closed spec fn waiting_ids(&self) -> Seq<u64> {
        self.queue@.map_values(|j: Job| j.id)
    }

    /// The id of the running job, if any.
    pub closed spec fn running(&self) -> Option<u64> {
        match self.current {
            Some(j) => Some(j.id),
            None => None,
        }
    }

    /// Job `k` of the started ones is over: its actions were all handed out,
    /// or one of its writes failed.
    pub open spec fn job_over(&self, k: int) -> bool {
        self.counts()[k] == self.started()[k].len() || self.faults()[k]
    }

    pub closed spec fn wf(&self) -> bool {
        &&& self.counts@.len() == self.started@.len()
        &&& self.faults@.len() == self.started@.len()
        &&& forall|k: int|
            0 <= k < self.started@.len() ==> #[trigger] self.counts@[k] <= self.started@[k].len()
        &&& self.issued@ == concat_prefixes(self.started@, self.counts@)
        &&& self.submitted@ == self.started@ + plans(self.queue@)
        &&& match self.current {
            Some(j) => {
                &&& self.started@.len() >= 1
                &&& self.started@.last() == j.actions@
                &&& self.counts@.last() == self.pc
                &&& self.faults@.last() == self.failed
                &&& jobs_over(self.started@, self.counts@, self.faults@, self.started@.len() - 1)
            },
            None => jobs_over(self.started@, self.counts@, self.faults@, self.started@.len() as int),
        }
    }

    /// A worker with no jobs.
    pub fn new() -> (w: Worker)
        ensures
            w.wf(),
            w.submitted() == Seq::<Seq<Action>>::empty(),
            w.started() == Seq::<Seq<Action>>::empty(),
            w.waiting() == Seq::<Seq<Action>>::empty(),
            w.waiting_ids() == Seq::<u64>::empty(),
            w.counts() == Seq::<nat>::empty(),
            w.faults() == Seq::<bool>::empty(),
            w.issued() == Seq::<Action>::empty(),
            w.running() is None,
    {
        let w = Worker {
            queue: Vec::new(),
            current: None,
            pc: 0,
            failed: false,
            submitted: Ghost(Seq::empty()),
            started: Ghost(Seq::empty()),
            counts: Ghost(Seq::empty()),
            faults: Ghost(Seq::empty()),
            issued: Ghost(Seq::empty()),
        };
        assert(plans(w.queue@) =~= Seq::<Seq<Action>>::empty());
        assert(w.queue@.map_values(|j: Job| j.id) =~= Seq::<u64>::empty());
        w
    }

    /// Queues the plan `actions` as job `id`, behind every job submitted
    /// before it.
    pub fn submit(&mut self, id: u64, actions: Vec<Action>)
        requires
            old(self).wf(),
        ensures
            final(self).wf(),
            final(self).submitted() == old(self).submitted().push(actions@),
            final(self).waiting() == old(self).waiting().push(actions@),
            final(self).waiting_ids() == old(self).waiting_ids().push(id),
            final(self).started() == old(self).started(),
            final(self).counts() == old(self).counts(),
            final(self).faults() == old(self).faults(),
            final(self).issued() == old(self).issued(),
            final(self).running() == old(self).running(),
    {
        let ghost a = actions@;
        let ghost q = self.queue@;
        self.queue.push(Job { id, actions });
        self.submitted = Ghost(self.submitted@.push(a));
        proof {
            assert(plans(self.queue@) =~= plans(q).push(a));
            assert(self.queue@.map_values(|j: Job| j.id) =~= q.map_values(|j: Job| j.id).push(id));
            assert(self.submitted@ =~= self.started@ + plans(self.queue@));
        }
    }

    /// Whether a job is running.
    pub fn is_running(&self) -> (r: bool)
        ensures
            r == self.running() is Some,
    {
        self.current.is_some()
    }

    /// Starts the first waiting job, when no job is running and one is
    /// waiting; returns its id.
    pub fn start_next(&mut self) -> (r: Option<u64>)
        requires
            old(self).wf(),
        ensures
            final(self).wf(),
            final(self).submitted() == old(self).submitted(),
            final(self).issued() == old(self).issued(),
            (old(self).running() is None && old(self).waiting().len() > 0) ==> {
                &&& r == Some(old(self).waiting_ids()[0])
                &&& final(self).running() == r
                &&& final(self).started() == old(self).started().push(old(self).waiting()[0])
                &&& final(self).waiting() == old(self).waiting().drop_first()
                &&& final(self).waiting_ids() == old(self).waiting_ids().drop_first()
                &&& final(self).counts() == old(self).counts().push(0)
                &&& final(self).faults() == old(self).faults().push(false)
            },
            !(old(self).running() is None && old(self).waiting().len() > 0) ==> {
                &&& r is None
                &&& final(self).running() == old(self).running()
                &&& final(self).started() == old(self).started()
                &&& final(self).waiting() == old(self).waiting()
                &&& final(self).waiting_ids() == old(self).waiting_ids()
                &&& final(self).counts() == old(self).counts()
                &&& final(self).faults() == old(self).faults()
            },
    {
        if self.current.is_some() || self.queue.len() == 0 {
            return None;
        }
        let ghost q = self.queue@;
        let job = self.queue.remove(0);
        let id = job.id;
        proof {
            assert(plans(self.queue@) =~= plans(q).drop_first());
            assert(self.queue@.map_values(|j: Job| j.id) =~= q.map_values(|j: Job| j.id).drop_first());
            let st = self.started@;
            let ct = self.counts@;
            let ns = st.push(job.actions@);
            let nc = ct.push(0nat);
            assert(ns.drop_last() =~= st);
            assert(nc.drop_last() =~= ct);
            assert(job.actions@.take(0) =~= Seq::<Action>::empty());
            assert(concat_prefixes(ns, nc) =~= concat_prefixes(st, ct));
            assert(st + plans(q) =~= ns + plans(q).drop_first());
        }
        self.started = Ghost(self.started@.push(job.actions@));
        self.counts = Ghost(self.counts@.push(0nat));
        self.faults = Ghost(self.faults@.push(false));
        self.current = Some(job);
        self.pc = 0;
        self.failed = false;
        Some(id)
    }

    /// Hands out the next action of the running job, or reports the job as
    /// finished once all its actions were handed out or a write failed.
    pub fn step(&mut self) -> (d: Directive)
        requires
            old(self).wf(),
            old(self).running() is Some,
        ensures
            final(self).wf(),
            final(self).submitted() == old(self).submitted(),
            final(self).started() == old(self).started(),
            final(self).waiting() == old(self).waiting(),
            final(self).waiting_ids() == old(self).waiting_ids(),
            final(self).faults() == old(self).faults(),
            ({
                let n = old(self).started().len() - 1;
                let job = old(self).started()[n];
                let c = old(self).counts()[n];
                let id = old(self).running()->0;
                if c < job.len() && !old(self).faults()[n] {
                    &&& d == Directive::Perform { job: id, action: job[c as int] }
                    &&& final(self).running() == old(self).running()
                    &&& final(self).counts() == old(self).counts().update(n, c + 1)
                    &&& final(self).issued() == old(self).issued().push(job[c as int])
                } else {
                    &&& d == Directive::Finished {
                        job: id,
                        outcome: if old(self).faults()[n] {
                            Err(ActuatorError::HardwareFault)
                        } else {
                            Ok(())
                        },
                    }
                    &&& final(self).running() is None
                    &&& final(self).counts() == old(self).counts()
                    &&& final(self).issued() == old(self).issued()
                }
            }),
    {
        let (id, len) = match &self.current {
            Some(j) => (j.id, j.actions.len()),
            None => unreached(),
        };
        if self.pc < len && !self.failed {
            let action = match &self.current {
                Some(j) => j.actions[self.pc],
                None => unreached(),
            };
            proof {
                let st = self.started@;
                let ct = self.counts@;
                let n = st.len() - 1;
                let nc = ct.update(n, (ct[n] + 1) as nat);
                assert(nc.drop_last() =~= ct.drop_last());
                assert(st.last().take(ct[n] + 1int) =~= st.last().take(ct[n] as int).push(action));
                assert(concat_prefixes(st, nc) =~= concat_prefixes(st, ct).push(action));
            }
            self.counts = Ghost(self.counts@.update(self.counts@.len() - 1, (self.pc + 1) as nat));
            self.issued = Ghost(self.issued@.push(action));
            self.pc = self.pc + 1;
            Directive::Perform { job: id, action }
        } else {
            let outcome = if self.failed {
                Err(ActuatorError::HardwareFault)
            } else {
                Ok(())
            };
            self.current = None;
            Directive::Finished { job: id, outcome }
        }
    }

    /// Records that the write just handed out failed: the running job hands
    /// out nothing more and finishes with `HardwareFault`.
    pub fn report_fault(&mut self)
        requires
            old(self).wf(),
            old(self).running() is Some,
        ensures
            final(self).wf(),
            final(self).submitted() == old(self).submitted(),
            final(self).started() == old(self).started(),
            final(self).waiting() == old(self).waiting(),
            final(self).waiting_ids() == old(self).waiting_ids(),
            final(self).running() == old(self).running(),
            final(self).counts() == old(self).counts(),
            final(self).issued() == old(self).issued(),
            final(self).faults() == old(self).faults().update(old(self).faults().len() - 1, true),
    {
        self.failed = true;
        self.faults = Ghost(self.faults@.update(self.faults@.len() - 1, true));
    }
}

/// Jobs never interleave on the actuator: everything handed out so far is,
/// job by job in the order the jobs started, a leading part of each job's
/// plan; every started job but the running one is over; and jobs start in
/// the order they were submitted.
pub proof fn lemma_jobs_never_interleave(w: &Worker)
    requires
        w.wf(),
    ensures
        w.issued() == concat_prefixes(w.started(), w.counts()),
        w.counts().len() == w.started().len(),
        forall|k: int| 0 <= k < w.started().len() ==> #[trigger] w.counts()[k] <= w.started()[k].len(),
        forall|k: int|
            0 <= k < w.started().len() && (w.running() is None || k < w.started().len() - 1)
                ==> w.job_over(k),
        w.submitted() == w.started() + w.waiting(),
{
}

/// Two jobs that both ran to completion leave on the actuator exactly the
/// actions of the first followed by those of the second.
pub proof fn lemma_two_jobs_in_sequence(w: &Worker)
    requires
        w.wf(),
        w.started().len() == 2,
        w.running() is None,
        !w.faults()[0],
        !w.faults()[1],
    ensures
        w.issued() == w.started()[0] + w.started()[1],
{
    let st = w.started();
    let ct = w.counts();
    assert(w.job_over(0) && w.job_over(1));
    assert(st.drop_last().drop_last() =~= Seq::<Seq<Action>>::empty());
    assert(st[0].take(ct[0] as int) =~= st[0]);
    assert(st[1].take(ct[1] as int) =~= st[1]);
    let s1 = st.drop_last();
    let c1 = ct.drop_last();
    assert(s1.drop_last() =~= Seq::<Seq<Action>>::empty());
    assert(concat_prefixes(s1.drop_last(), c1.drop_last()) =~= Seq::<Action>::empty());
    assert(concat_prefixes(s1, c1) =~= st[0]);
    assert(w.issued() =~= st[0] + st[1]);
}

/// Why a command was refused before the actuator was touched.
#[derive(Clone, Debug, PartialEq, Eq)]
pub enum RequestError {
    Parse(ParseError),
    OutOfRange(OutOfRange),
}

/// Parses a raw command payload and plans its actions on `range`.
pub fn prepare(raw: &[u8], range: &CalibratedRange) -> (r: Result<Vec<Action>, RequestError>)
    requires
        range.wf(),
    ensures
        parse_outcome(raw@) matches Err(f) ==> (r matches Err(RequestError::Parse(e)) && e@ == f),
        parse_outcome(raw@) matches Ok(steps) ==> {
            &&& r is Ok <==> positions_in_range(steps)
            &&& r matches Ok(v) ==> v@ == plan_of(steps, *range)
            &&& r matches Err(e) ==> e matches RequestError::OutOfRange(o) && exists|p: int|
                0 <= p < steps.len() && (#[trigger] steps[p]).position == o.angle && o.angle
                    > MAX_ANGLE && positions_in_range(steps.take(p))
        },
{
    match parse(raw) {
        Err(e) => Err(RequestError::Parse(e)),
        Ok(t) => {
            let ghost steps = t.steps@;
            assert(parse_outcome(raw@) == Ok::<Seq<Step>, ParseFault>(steps));
            match plan(&t, range) {
                Ok(v) => Ok(v),
                Err(o) => {
                    assert(!positions_in_range(steps));
                    assert(exists|p: int|
                        0 <= p < steps.len() && (#[trigger] steps[p]).position == o.angle && o.angle
                            > MAX_ANGLE && positions_in_range(steps.take(p)));
                    Err(RequestError::OutOfRange(o))
                },
            }
        },
    }
}

} // verus!
