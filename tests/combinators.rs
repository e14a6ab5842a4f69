use std::cell::{Cell, RefCell};
use std::rc::Rc;

use zip_latest::{
    zip_latest, zip_latest_right, GuardedSource, LatestPair, LatestRightPair, Phase, Signal, Source,
};

/// Replays a fixed list of signals, one per poll, then suspends forever.
struct Script<T> {
    steps: Vec<Signal<T, String>>,
    pos: usize,
    polls: Rc<Cell<usize>>,
}

fn script<T>(steps: Vec<Signal<T, String>>) -> (Script<T>, Rc<Cell<usize>>) {
    let polls = Rc::new(Cell::new(0));
    (Script { steps, pos: 0, polls: polls.clone() }, polls)
}

impl<T: Clone> Source for Script<T> {
    type Item = T;
    type Error = String;

    fn advance(&mut self) -> Signal<T, String> {
        self.polls.set(self.polls.get() + 1);
        let s = if self.pos < self.steps.len() {
            self.steps[self.pos].clone()
        } else {
            Signal::Suspend
        };
        self.pos += 1;
        s
    }
}

/// A counter ticking at every step, ending after `last`.
fn every_step(last: u32) -> Vec<Signal<u32, String>> {
    let mut v: Vec<Signal<u32, String>> = (1..=last).map(Signal::Value).collect();
    v.push(Signal::Done);
    v
}

/// A counter ticking at every `period`-th step, `count` times.
fn every_nth(period: usize, count: u32) -> Vec<Signal<u32, String>> {
    let mut v = Vec::new();
    for k in 1..=count {
        for _ in 1..period {
            v.push(Signal::Suspend);
        }
        v.push(Signal::Value(k));
    }
    v
}

type Out = Signal<(Option<u32>, Option<u32>), String>;

fn pair(l: Option<u32>, r: Option<u32>) -> Out {
    Signal::Value((l, r))
}

#[test]
fn zip_latest_combine_two_timer_streams() {
    let (left, _) = script(every_step(10));
    let (right, _) = script(every_nth(5, 10));
    let mut z = zip_latest(left, right);
    let mut out = Vec::new();
    loop {
        match z.poll() {
            Signal::Value(p) => out.push(p),
            Signal::Suspend => {}
            Signal::Done => break,
            Signal::Error(e) => panic!("unexpected error {}", e),
        }
    }
    let expected: Vec<(Option<u32>, Option<u32>)> = vec![
        (Some(1), None),
        (Some(2), None),
        (Some(3), None),
        (Some(4), None),
        (Some(5), Some(1)),
        (Some(6), Some(1)),
        (Some(7), Some(1)),
        (Some(8), Some(1)),
        (Some(9), Some(1)),
        (Some(10), Some(2)),
    ];
    assert_eq!(out, expected);
}

#[test]
fn symmetric_suspends_when_neither_side_advances() {
    let (left, _) = script(vec![Signal::Suspend, Signal::Value(7)]);
    let (right, _) = script(vec![Signal::Suspend, Signal::Suspend, Signal::Value(3)]);
    let mut z = zip_latest(left, right);
    assert_eq!(z.poll(), Signal::Suspend);
    assert_eq!(z.poll(), pair(Some(7), None));
    assert_eq!(z.poll(), pair(Some(7), Some(3)));
    assert_eq!(z.poll(), Signal::Suspend);
}

#[test]
fn symmetric_first_completion_wins() {
    // left ends at step 3, right would end at step 5 and has a value at step 3
    let (left, _) = script(vec![Signal::Value(1), Signal::Suspend, Signal::Done]);
    let (right, _) = script(vec![
        Signal::Suspend,
        Signal::Value(10),
        Signal::Value(11),
        Signal::Value(12),
        Signal::Done,
    ]);
    let mut z = zip_latest(left, right);
    assert_eq!(z.poll(), pair(Some(1), None));
    assert_eq!(z.poll(), pair(Some(1), Some(10)));
    assert_eq!(z.poll(), Signal::Done);
    assert_eq!(z.poll(), Signal::Done);
}

#[test]
fn symmetric_right_completion_ends_merge() {
    let (left, _) = script(vec![Signal::Value(1), Signal::Value(2)]);
    let (right, _) = script(vec![Signal::Suspend, Signal::Done]);
    let mut z = zip_latest(left, right);
    assert_eq!(z.poll(), pair(Some(1), None));
    assert_eq!(z.poll(), Signal::Done);
}

#[test]
fn symmetric_done_side_never_polled_again() {
    let (left, lp) = script::<u32>(vec![Signal::Done]);
    let (right, rp) = script(vec![Signal::Value(1), Signal::Value(2)]);
    let mut z = zip_latest(left, right);
    assert_eq!(z.poll(), Signal::Done);
    assert_eq!(z.poll(), Signal::Done);
    assert_eq!(z.poll(), Signal::Done);
    // the ended side is left alone, the other one is still polled once per call
    assert_eq!(lp.get(), 1);
    assert_eq!(rp.get(), 3);
}

#[test]
fn symmetric_error_short_circuits() {
    let (left, lp) = script(vec![Signal::Value(1), Signal::Value(2), Signal::Value(3)]);
    let (right, rp) = script(vec![
        Signal::Suspend,
        Signal::Error("boom".to_string()),
        Signal::Value(4),
    ]);
    let mut z = zip_latest(left, right);
    assert_eq!(z.poll(), pair(Some(1), None));
    assert_eq!(z.poll(), Signal::Error("boom".to_string()));
    assert_eq!(z.poll(), Signal::Error("boom".to_string()));
    assert_eq!(z.poll(), Signal::Error("boom".to_string()));
    assert_eq!(lp.get(), 4);
    assert_eq!(rp.get(), 2);
}

#[test]
fn symmetric_left_error_wins_over_right_error() {
    let (left, _) = script::<u32>(vec![Signal::Error("left".to_string())]);
    let (right, _) = script::<u32>(vec![Signal::Error("right".to_string())]);
    let mut z = zip_latest(left, right);
    assert_eq!(z.poll(), Signal::Error("left".to_string()));
}

#[test]
fn symmetric_error_wins_over_done_in_one_step() {
    let (left, _) = script::<u32>(vec![Signal::Done]);
    let (right, _) = script::<u32>(vec![Signal::Error("right".to_string())]);
    let mut z = zip_latest(left, right);
    assert_eq!(z.poll(), Signal::Error("right".to_string()));
}

#[test]
fn symmetric_cached_values_reused() {
    let mut s: LatestPair<String, u32, String> = LatestPair::new();
    assert_eq!(
        s.step(Signal::Value("a".to_string()), Signal::Value(1)),
        Signal::Value((Some("a".to_string()), Some(1)))
    );
    assert_eq!(
        s.step(Signal::Suspend, Signal::Value(2)),
        Signal::Value((Some("a".to_string()), Some(2)))
    );
    assert_eq!(
        s.step(Signal::Value("b".to_string()), Signal::Suspend),
        Signal::Value((Some("b".to_string()), Some(2)))
    );
    assert_eq!(s.left, Some("b".to_string()));
    assert_eq!(s.right, Some(2));
    assert_eq!(s.phase, Phase::Running);
}

#[test]
fn symmetric_core_phases() {
    let mut s: LatestPair<u32, u32, String> = LatestPair::new();
    assert!(s.is_running());
    assert_eq!(s.step(Signal::Suspend, Signal::Done), Signal::Done);
    assert_eq!(s.phase, Phase::Finished);
    assert!(!s.is_running());
    assert_eq!(s.step(Signal::Value(1), Signal::Value(1)), Signal::Done);
    assert_eq!(s.left, None);

    let mut f: LatestPair<u32, u32, String> = LatestPair::new();
    assert_eq!(
        f.step(Signal::Value(1), Signal::Error("e".to_string())),
        Signal::Error("e".to_string())
    );
    assert_eq!(f.phase, Phase::Failed("e".to_string()));
    assert_eq!(f.left, None);
    assert_eq!(f.step(Signal::Value(2), Signal::Done), Signal::Error("e".to_string()));
}

#[test]
fn zip_latest_right_combine_two_timer_streams() {
    // left ticks every step up to 30 and ends at step 31; right ticks every
    // 5th step, its sixth tick coming at step 31, together with the end
    let (left, _) = script(every_step(30));
    let mut right_steps = every_nth(5, 5);
    right_steps.extend(every_nth(6, 1).into_iter().map(|s| match s {
        Signal::Value(_) => Signal::Value(6),
        other => other,
    }));
    let (right, _) = script(right_steps);
    let right_ticks: [usize; 5] = [5, 10, 15, 20, 25];
    let mut z = zip_latest_right(left, right);
    let mut out = Vec::new();
    let mut on_right = Vec::new();
    let mut step: usize = 0;
    loop {
        step += 1;
        match z.poll() {
            Signal::Value(p) => {
                if right_ticks.contains(&step) {
                    on_right.push(p.clone());
                }
                out.push(p);
            }
            Signal::Suspend => {}
            Signal::Done => break,
            Signal::Error(e) => panic!("unexpected error {}", e),
        }
    }
    // exactly one pair per right advancement before the end
    assert_eq!(
        on_right,
        vec![
            (Some(5), Some(1)),
            (Some(10), Some(2)),
            (Some(15), Some(3)),
            (Some(20), Some(4)),
            (Some(25), Some(5)),
        ]
    );
    // a step where only the left side advances repeats the visible pair
    let mut expected = vec![(None, None); 4];
    for k in 1..=5u32 {
        for _ in 0..5 {
            expected.push((Some(5 * k), Some(k)));
        }
    }
    expected.push((Some(25), Some(5)));
    assert_eq!(out, expected);
    assert_eq!(step, 31);
}

#[test]
fn right_triggered_left_only_before_right_emits_none() {
    let (left, _) = script(vec![Signal::Value(1)]);
    let (right, _) = script::<u32>(vec![]);
    let mut z = zip_latest_right(left, right);
    assert_eq!(z.poll(), pair(None, None));
    assert_eq!(z.poll(), Signal::Suspend);
}

#[test]
fn right_triggered_commits_staged_left_on_right_tick() {
    let (left, _) = script(vec![
        Signal::Value(1),
        Signal::Suspend,
        Signal::Value(2),
        Signal::Value(3),
        Signal::Suspend,
        Signal::Suspend,
    ]);
    let (right, _) = script(vec![
        Signal::Suspend,
        Signal::Value(10),
        Signal::Suspend,
        Signal::Suspend,
        Signal::Value(11),
        Signal::Value(12),
    ]);
    let mut z = zip_latest_right(left, right);
    assert_eq!(z.poll(), pair(None, None));
    assert_eq!(z.poll(), pair(Some(1), Some(10)));
    assert_eq!(z.poll(), pair(Some(1), Some(10)));
    assert_eq!(z.poll(), pair(Some(1), Some(10)));
    assert_eq!(z.poll(), pair(Some(3), Some(11)));
    // the left value holds between right ticks
    assert_eq!(z.poll(), pair(Some(3), Some(12)));
    assert_eq!(z.poll(), Signal::Suspend);
}

#[test]
fn right_triggered_both_advance_publishes_new_left() {
    let mut s: LatestRightPair<u32, u32, String> = LatestRightPair::new();
    assert_eq!(s.step(Signal::Value(4), Signal::Suspend), pair(None, None));
    assert_eq!(s.staged, Some(4));
    assert_eq!(s.live, None);
    assert_eq!(s.step(Signal::Value(5), Signal::Value(1)), pair(Some(5), Some(1)));
    assert_eq!(s.live, Some(5));
    assert_eq!(s.staged, None);
    assert_eq!(s.right, Some(1));
    assert_eq!(s.step(Signal::Suspend, Signal::Value(2)), pair(Some(5), Some(2)));
}

#[test]
fn right_triggered_first_completion_wins() {
    let (left, lp) = script(vec![Signal::Value(1), Signal::Value(2)]);
    let (right, rp) = script(vec![Signal::Value(9), Signal::Done]);
    let mut z = zip_latest_right(left, right);
    assert_eq!(z.poll(), pair(Some(1), Some(9)));
    assert_eq!(z.poll(), Signal::Done);
    assert_eq!(z.poll(), Signal::Done);
    assert_eq!(lp.get(), 3);
    assert_eq!(rp.get(), 2);
}

#[test]
fn right_triggered_right_error_wins_over_left_error() {
    let (left, _) = script::<u32>(vec![Signal::Error("left".to_string())]);
    let (right, _) = script::<u32>(vec![Signal::Error("right".to_string())]);
    let mut z = zip_latest_right(left, right);
    assert_eq!(z.poll(), Signal::Error("right".to_string()));
    assert_eq!(z.poll(), Signal::Error("right".to_string()));
}

#[test]
fn right_triggered_left_error_short_circuits() {
    let (left, lp) = script(vec![Signal::Value(1), Signal::Error("left".to_string())]);
    let (right, _) = script(vec![Signal::Value(1), Signal::Value(2), Signal::Value(3)]);
    let mut z = zip_latest_right(left, right);
    assert_eq!(z.poll(), pair(Some(1), Some(1)));
    assert_eq!(z.poll(), Signal::Error("left".to_string()));
    assert_eq!(z.poll(), Signal::Error("left".to_string()));
    assert_eq!(lp.get(), 2);
}

#[test]
fn guarded_source_never_polls_after_done() {
    let (src, polls) = script(vec![Signal::Value(1), Signal::Done, Signal::Value(2)]);
    let mut g = GuardedSource::new(src);
    assert!(!g.is_ended());
    assert_eq!(g.advance(), Signal::Value(1));
    assert_eq!(g.advance(), Signal::Done);
    assert!(g.is_ended());
    assert_eq!(g.advance(), Signal::Done);
    assert_eq!(g.advance(), Signal::Done);
    assert_eq!(polls.get(), 2);
}

#[test]
fn guarded_source_never_polls_after_error() {
    let (src, polls) = script::<u32>(vec![Signal::Error("e".to_string()), Signal::Value(2)]);
    let mut g = GuardedSource::new(src);
    assert_eq!(g.advance(), Signal::Error("e".to_string()));
    assert!(g.is_ended());
    assert_eq!(g.advance(), Signal::Done);
    assert_eq!(polls.get(), 1);
}

#[test]
fn guarded_source_passes_suspend_through() {
    let (src, polls) = script(vec![Signal::Suspend, Signal::Value(3)]);
    let mut g = GuardedSource::new(src);
    assert_eq!(g.advance(), Signal::Suspend);
    assert!(!g.is_ended());
    assert_eq!(g.advance(), Signal::Value(3));
    assert_eq!(polls.get(), 2);
}

/// Writes its name to a shared log at each poll and never yields.
struct Logged {
    name: &'static str,
    log: Rc<RefCell<Vec<&'static str>>>,
}

impl Source for Logged {
    type Item = u32;
    type Error = String;

    fn advance(&mut self) -> Signal<u32, String> {
        self.log.borrow_mut().push(self.name);
        Signal::Suspend
    }
}

#[test]
fn poll_order_of_each_combinator() {
    let log = Rc::new(RefCell::new(Vec::new()));
    let l = Logged { name: "left", log: log.clone() };
    let r = Logged { name: "right", log: log.clone() };
    let mut z = zip_latest(l, r);
    assert_eq!(z.poll(), Signal::Suspend);
    assert_eq!(*log.borrow(), vec!["left", "right"]);

    let log2 = Rc::new(RefCell::new(Vec::new()));
    let l2 = Logged { name: "left", log: log2.clone() };
    let r2 = Logged { name: "right", log: log2.clone() };
    let mut zr = zip_latest_right(l2, r2);
    assert_eq!(zr.poll(), Signal::Suspend);
    assert_eq!(*log2.borrow(), vec!["right", "left"]);
}
