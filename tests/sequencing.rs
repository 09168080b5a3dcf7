use servo_sequencer::command::{parse, ParseError};
use servo_sequencer::duty::{CalibratedRange, OutOfRange};
use servo_sequencer::sequencer::{
    plan, prepare, Action, ActuatorError, Directive, RequestError, Worker,
};

fn range() -> CalibratedRange {
    CalibratedRange::new(100, 800).unwrap()
}

/// Runs the worker until it is idle, performing every action; writes whose
/// index (counting every write) is in `failing` fail.
fn drain(w: &mut Worker, failing: &[usize]) -> (Vec<(u64, Action)>, Vec<(u64, Result<(), ActuatorError>)>) {
    let mut performed = Vec::new();
    let mut finished = Vec::new();
    let mut writes = 0usize;
    loop {
        if !w.is_running() && w.start_next().is_none() {
            break;
        }
        match w.step() {
            Directive::Perform { job, action } => {
                performed.push((job, action));
                if let Action::SetDuty(_) = action {
                    if failing.contains(&writes) {
                        w.report_fault();
                    }
                    writes += 1;
                }
            }
            Directive::Finished { job, outcome } => finished.push((job, outcome)),
        }
    }
    (performed, finished)
}

fn duties(actions: &[Action]) -> Vec<u32> {
    actions
        .iter()
        .filter_map(|a| match a {
            Action::SetDuty(d) => Some(*d),
            Action::Hold(_) => None,
        })
        .collect()
}

fn holds(actions: &[Action]) -> u64 {
    actions
        .iter()
        .map(|a| match a {
            Action::Hold(h) => *h as u64,
            Action::SetDuty(_) => 0,
        })
        .sum()
}

#[test]
fn end_to_end_scenario() {
    let actions = prepare(b"90,500,0,500,180", &range()).unwrap();
    assert_eq!(
        actions,
        vec![
            Action::SetDuty(450),
            Action::Hold(500),
            Action::SetDuty(100),
            Action::Hold(500),
            Action::SetDuty(800),
        ]
    );
    assert_eq!(duties(&actions), vec![450, 100, 800]);
    assert!(holds(&actions) >= 1000);

    let mut w = Worker::new();
    w.submit(1, actions.clone());
    let (performed, finished) = drain(&mut w, &[]);
    let done: Vec<Action> = performed.iter().map(|p| p.1).collect();
    assert_eq!(done, actions);
    assert_eq!(finished, vec![(1, Ok(()))]);
}

#[test]
fn single_zero_is_one_write_without_hold() {
    let actions = prepare(b"0", &range()).unwrap();
    assert_eq!(actions, vec![Action::SetDuty(100)]);
    assert_eq!(holds(&actions), 0);
}

#[test]
fn plan_refuses_first_out_of_range_position() {
    let t = parse(b"90,10,181,10,200").unwrap();
    assert_eq!(plan(&t, &range()), Err(OutOfRange { angle: 181 }));
    assert_eq!(
        prepare(b"90,10,181", &range()),
        Err(RequestError::OutOfRange(OutOfRange { angle: 181 }))
    );
}

#[test]
fn prepare_reports_parse_errors() {
    assert_eq!(
        prepare(b"90,500", &range()),
        Err(RequestError::Parse(ParseError::MalformedTimeline))
    );
    assert_eq!(
        prepare(&[0xff], &range()),
        Err(RequestError::Parse(ParseError::Encoding))
    );
}

#[test]
fn two_jobs_never_interleave() {
    let a = prepare(b"10,5,20,5,30", &range()).unwrap();
    let b = prepare(b"170,5,160", &range()).unwrap();
    let mut w = Worker::new();
    w.submit(7, a.clone());
    w.submit(8, b.clone());
    let (performed, finished) = drain(&mut w, &[]);
    let mut expected: Vec<(u64, Action)> = a.iter().map(|x| (7, *x)).collect();
    expected.extend(b.iter().map(|x| (8, *x)));
    assert_eq!(performed, expected);
    assert_eq!(finished, vec![(7, Ok(())), (8, Ok(()))]);
}

#[test]
fn job_submitted_while_running_waits_its_turn() {
    let a = prepare(b"0,5,180", &range()).unwrap();
    let b = prepare(b"90", &range()).unwrap();
    let mut w = Worker::new();
    w.submit(1, a);
    assert_eq!(w.start_next(), Some(1));
    assert_eq!(w.step(), Directive::Perform { job: 1, action: Action::SetDuty(100) });
    w.submit(2, b);
    assert_eq!(w.start_next(), None);
    assert_eq!(w.step(), Directive::Perform { job: 1, action: Action::Hold(5) });
    assert_eq!(w.step(), Directive::Perform { job: 1, action: Action::SetDuty(800) });
    assert_eq!(w.step(), Directive::Finished { job: 1, outcome: Ok(()) });
    assert_eq!(w.start_next(), Some(2));
    assert_eq!(w.step(), Directive::Perform { job: 2, action: Action::SetDuty(450) });
    assert_eq!(w.step(), Directive::Finished { job: 2, outcome: Ok(()) });
    assert!(!w.is_running());
    assert_eq!(w.start_next(), None);
}

#[test]
fn failed_write_aborts_the_job_only() {
    let a = prepare(b"10,5,20,5,30", &range()).unwrap();
    let b = prepare(b"90", &range()).unwrap();
    let mut w = Worker::new();
    w.submit(1, a.clone());
    w.submit(2, b);
    // The second write of job 1 fails.
    let (performed, finished) = drain(&mut w, &[1]);
    assert_eq!(
        performed,
        vec![
            (1, a[0]),
            (1, a[1]),
            (1, a[2]),
            (2, Action::SetDuty(450)),
        ]
    );
    assert_eq!(
        finished,
        vec![(1, Err(ActuatorError::HardwareFault)), (2, Ok(()))]
    );
}

#[test]
fn empty_plan_finishes_at_once() {
    let mut w = Worker::new();
    w.submit(3, Vec::new());
    assert_eq!(w.start_next(), Some(3));
    assert_eq!(w.step(), Directive::Finished { job: 3, outcome: Ok(()) });
}

#[test]
fn idle_worker_starts_nothing() {
    let mut w = Worker::new();
    assert!(!w.is_running());
    assert_eq!(w.start_next(), None);
}
