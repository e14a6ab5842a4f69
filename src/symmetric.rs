use vstd::prelude::*;

use crate::signal::{
    copy_error, copy_pair, option_cloned, pair_cloned, refreshed, guard_stepped, polled_sides, yielded, GuardedSource, Phase, Side, Signal, Source,
};

verus! {

/// The state of the symmetric merge: the latest value seen on each side
/// (`None` until that side has produced one) and the phase.
///
/// Each step takes one signal from each side. An error (the left one first)
/// stops the merge; otherwise a `Done` on either side ends it; otherwise
/// every new value overwrites its slot, and if any side advanced the pair of
/// slots is emitted.
#[derive(Debug)]
pub struct LatestPair<A, B, E> {
    pub left: Option<A>,
    pub right: Option<B>,
    pub phase: Phase<E>,
}

impl<A, B, E> LatestPair<A, B, E> {
    /// The state after one step on the signals `a` (left) and `b` (right),
    /// and what the step emits.
    pub open spec fn transition(self, a: Signal<A, E>, b: Signal<B, E>) -> (
        Self,
        Signal<(Option<A>, Option<B>), E>,
    ) {
        match self.phase {
            Phase::Finished => (self, Signal::Done),
            Phase::Failed(e) => (self, Signal::Error(e)),
            Phase::Running => if a is Error {
                (LatestPair { phase: Phase::Failed(a->Error_0), ..self }, Signal::Error(a->Error_0))
            } else if b is Error {
                (LatestPair { phase: Phase::Failed(b->Error_0), ..self }, Signal::Error(b->Error_0))
            } else if a is Done || b is Done {
                (LatestPair { phase: Phase::Finished, ..self }, Signal::Done)
            } else {
                let next = LatestPair {
                    left: refreshed(self.left, a),
                    right: refreshed(self.right, b),
                    phase: Phase::Running,
                };
                if a is Value || b is Value {
                    (next, Signal::Value((next.left, next.right)))
                } else {
                    (next, Signal::Suspend)
                }
            },
        }
    }

    /// What the merge emits when handed the two sequences of signals, one
    /// step per position.
    pub open spec fn run(self, a: Seq<Signal<A, E>>, b: Seq<Signal<B, E>>) -> Seq<
        Signal<(Option<A>, Option<B>), E>,
    >
        decreases a.len(),
    {
        if a.len() == 0 || b.len() == 0 {
            Seq::empty()
        } else {
            let t = self.transition(a[0], b[0]);
            seq![t.1] + t.0.run(a.drop_first(), b.drop_first())
        }
    }
}

impl<A: Clone, B: Clone, E: Clone> LatestPair<A, B, E> {
    /// A running merge with nothing seen on either side.
    pub fn new() -> (s: Self)
        ensures
            s.left is None,
            s.right is None,
            s.phase is Running,
    {
        LatestPair { left: None, right: None, phase: Phase::Running }
    }

    pub fn is_running(&self) -> (r: bool)
        ensures
            r == self.phase is Running,
    {
        match self.phase {
            Phase::Running => true,
            _ => false,
        }
    }

    /// One step on the signals of the left and the right side. The emitted
    /// pair is a copy: the slots keep their values for later pairs.
    pub fn step(&mut self, a: Signal<A, E>, b: Signal<B, E>) -> (r: Signal<
        (Option<A>, Option<B>),
        E,
    >)
        ensures
            *final(self) == old(self).transition(a, b).0,
            pair_cloned(old(self).transition(a, b).1, r),
    {
        match &self.phase {
            Phase::Finished => {
                return Signal::Done;
            },
            Phase::Failed(e) => {
                return Signal::Error(copy_error(e));
            },
            Phase::Running => {},
        }
        match (a, b) {
            (Signal::Error(e), _) => {
                let r = copy_error(&e);
                self.phase = Phase::Failed(e);
                Signal::Error(r)
            },
            (_, Signal::Error(e)) => {
                let r = copy_error(&e);
                self.phase = Phase::Failed(e);
                Signal::Error(r)
            },
            (Signal::Done, _) => {
                self.phase = Phase::Finished;
                Signal::Done
            },
            (_, Signal::Done) => {
                self.phase = Phase::Finished;
                Signal::Done
            },
            (Signal::Suspend, Signal::Suspend) => Signal::Suspend,
            (a, b) => {
                if let Signal::Value(x) = a {
                    self.left = Some(x);
                }
                if let Signal::Value(y) = b {
                    self.right = Some(y);
                }
                Signal::Value(copy_pair(&self.left, &self.right))
            },
        }
    }
}

/// Combines the latest values of two sources: a new pair each time either
/// source produces a value, with `None` for a side that has produced none.
pub struct ZipLatest<S1: Source, S2: Source> {
    left: GuardedSource<S1>,
    right: GuardedSource<S2>,
    pair: LatestPair<S1::Item, S2::Item, S1::Error>,
    trace: Ghost<Seq<Side>>,
}

/// Starts merging `left` and `right`; neither is polled yet.
pub fn zip_latest<S1, S2>(left: S1, right: S2) -> (z: ZipLatest<S1, S2>) where
    S1: Source,
    S2: Source<Error = S1::Error>,
    S1::Item: Clone,
    S2::Item: Clone,
    S1::Error: Clone,

    ensures
        z.state().left is None,
        z.state().right is None,
        z.state().phase is Running,
        !z.left_source().ended(),
        !z.right_source().ended(),
        z.left_source().history().len() == 0,
        z.right_source().history().len() == 0,
        z.trace().len() == 0,
{
    ZipLatest {
        left: GuardedSource::new(left),
        right: GuardedSource::new(right),
        pair: LatestPair::new(),
        trace: Ghost(Seq::empty()),
    }
}

impl<S1, S2> ZipLatest<S1, S2> where S1: Source, S2: Source<Error = S1::Error> {
    /// The cached values and the phase.
    pub closed spec fn state(&self) -> LatestPair<S1::Item, S2::Item, S1::Error> {
        self.pair
    }

    pub closed spec fn left_source(&self) -> GuardedSource<S1> {
        self.left
    }

    pub closed spec fn right_source(&self) -> GuardedSource<S2> {
        self.right
    }

    /// The sources polled so far, in the order of the polls.
    pub closed spec fn trace(&self) -> Seq<Side> {
        self.trace@
    }

    /// One call of `poll` from `before` to `after` that emitted `r`: each
    /// guarded source was advanced once, the left first, a side that had ended
    /// yielding `Done` unpolled; and the merge took one step on what the two
    /// guards yielded.
    pub open spec fn polled(
        before: Self,
        after: Self,
        r: Signal<(Option<S1::Item>, Option<S2::Item>), S1::Error>,
    ) -> bool where S1::Item: Clone, S2::Item: Clone, S1::Error: Clone {
        let a = yielded(before.left_source(), after.left_source());
        let b = yielded(before.right_source(), after.right_source());
        &&& guard_stepped(before.left_source(), after.left_source())
        &&& guard_stepped(before.right_source(), after.right_source())
        &&& after.trace() == before.trace() + polled_sides(Side::Left, before.left_source().ended(), Side::Right, before.right_source().ended())
        &&& after.state() == before.state().transition(a, b).0
        &&& pair_cloned(before.state().transition(a, b).1, r)
    }

    /// One step of the merge: advances the left source, then the right one, and emits a pair, `Suspend`,
    /// `Done` or the error. Once the merge has stopped it keeps emitting
    /// `Done` or the same error.
    pub fn poll(&mut self) -> (r: Signal<(Option<S1::Item>, Option<S2::Item>), S1::Error>) where
        S1::Item: Clone,
        S2::Item: Clone,
        S1::Error: Clone,

        ensures
            Self::polled(*old(self), *final(self), r),
    {
        let ghost before = *self;
        let ghost left_ended = self.left.ended();
        let ghost right_ended = self.right.ended();
        let a = self.left.advance();
        self.trace = Ghost(if left_ended { self.trace@ } else { self.trace@.push(Side::Left) });
        let b = self.right.advance();
        self.trace = Ghost(if right_ended { self.trace@ } else { self.trace@.push(Side::Right) });
        let r = self.pair.step(a, b);
        assert(self.trace@ =~= before.trace@ + polled_sides(
            Side::Left,
            left_ended,
            Side::Right,
            right_ended,
        ));
        assert(Self::polled(before, *self, r));
        r
    }
}

impl<S1, S2> ZipLatest<S1, S2> where
    S1: Source,
    S2: Source<Error = S1::Error>,
    S1::Item: Clone,
    S2::Item: Clone,
    S1::Error: Clone,
 {
    /// `rs[i]` was emitted by a call of `poll` that took the merge from
    /// `zs[i]` to `zs[i + 1]`.
    pub open spec fn poll_chain(zs: Seq<Self>, rs: Seq<Signal<(Option<S1::Item>, Option<S2::Item>), S1::Error>>) -> bool {
        &&& zs.len() == rs.len() + 1
        &&& forall|i: int| 0 <= i < rs.len() ==> #[trigger] Self::polled(zs[i], zs[i + 1], rs[i])
    }

    /// What the left guard yielded at each call of a chain.
    pub open spec fn left_yields(zs: Seq<Self>) -> Seq<Signal<S1::Item, S1::Error>> {
        Seq::new((zs.len() - 1) as nat, |i: int| yielded(zs[i].left_source(), zs[i + 1].left_source()))
    }

    /// What the right guard yielded at each call of a chain.
    pub open spec fn right_yields(zs: Seq<Self>) -> Seq<Signal<S2::Item, S1::Error>> {
        Seq::new((zs.len() - 1) as nat, |i: int| yielded(zs[i].right_source(), zs[i + 1].right_source()))
    }

    /// A chain of calls of `poll` emits, call by call, a clone of what the
    /// merge's run emits on the signals that the two guards yielded.
    pub proof fn lemma_polls_follow_run(zs: Seq<Self>, rs: Seq<Signal<(Option<S1::Item>, Option<S2::Item>), S1::Error>>)
        requires
            Self::poll_chain(zs, rs),
        ensures
            zs[0].state().run(Self::left_yields(zs), Self::right_yields(zs)).len() == rs.len(),
            forall|i: int|
                0 <= i < rs.len() ==> pair_cloned(
                    #[trigger] zs[0].state().run(Self::left_yields(zs), Self::right_yields(zs))[i],
                    rs[i],
                ),
        decreases rs.len(),
    {
        let a = Self::left_yields(zs);
        let b = Self::right_yields(zs);
        if rs.len() > 0 {
            let tail = zs.drop_first();
            assert forall|i: int| 0 <= i < rs.len() - 1 implies #[trigger] Self::polled(
                tail[i],
                tail[i + 1],
                rs.drop_first()[i],
            ) by {
                let j = i + 1;
                assert(Self::polled(zs[j], zs[j + 1], rs[j]));
            }
            Self::lemma_polls_follow_run(tail, rs.drop_first());
            assert(Self::left_yields(tail) =~= a.drop_first());
            assert(Self::right_yields(tail) =~= b.drop_first());
            assert(Self::polled(zs[0], zs[1], rs[0]));
            let t = zs[0].state().transition(a[0], b[0]);
            assert(t.0 == tail[0].state());
            assert forall|i: int| 0 <= i < rs.len() implies pair_cloned(
                #[trigger] zs[0].state().run(a, b)[i],
                rs[i],
            ) by {
                if i > 0 {
                    assert(zs[0].state().run(a, b)[i] == t.0.run(a.drop_first(), b.drop_first())[i - 1]);
                    assert(rs[i] == rs.drop_first()[i - 1]);
                }
            }
        }
    }

    /// First completion wins, over calls of `poll`: when up to call `k` both
    /// guards yielded only values or suspensions, and at call `k` one yields
    /// `Done` while neither fails, `poll` returns `Done` at `k`, at no earlier
    /// call, and at every later call.
    pub proof fn lemma_polls_first_completion_wins(
        zs: Seq<Self>,
        rs: Seq<Signal<(Option<S1::Item>, Option<S2::Item>), S1::Error>>,
        k: int,
    )
        requires
            Self::poll_chain(zs, rs),
            zs[0].state().phase is Running,
            0 <= k < rs.len(),
            forall|i: int| 0 <= i < k ==> (#[trigger] Self::left_yields(zs)[i]).is_live() && Self::right_yields(zs)[i].is_live(),
            Self::left_yields(zs)[k] is Done || Self::right_yields(zs)[k] is Done,
            !(Self::left_yields(zs)[k] is Error),
            !(Self::right_yields(zs)[k] is Error),
        ensures
            forall|i: int| 0 <= i < k ==> (#[trigger] rs[i]).is_live(),
            forall|i: int| k <= i < rs.len() ==> #[trigger] rs[i] is Done,
    {
        let a = Self::left_yields(zs);
        let b = Self::right_yields(zs);
        Self::lemma_polls_follow_run(zs, rs);
        lemma_first_completion_wins(zs[0].state(), a, b, k);
        assert forall|i: int| 0 <= i < rs.len() implies (i < k ==> (#[trigger] rs[i]).is_live()) && (k <= i ==> rs[i] is Done) by {
            assert(pair_cloned(zs[0].state().run(a, b)[i], rs[i]));
        }
    }

    /// Error short-circuit, over calls of `poll`: when up to call `k` both
    /// guards yielded only values or suspensions and at call `k` one fails,
    /// `poll` returns a clone of that error (the left one where both fail) at
    /// `k` and at every later call, and no `Value` or `Done` after it.
    pub proof fn lemma_polls_error_short_circuit(
        zs: Seq<Self>,
        rs: Seq<Signal<(Option<S1::Item>, Option<S2::Item>), S1::Error>>,
        k: int,
    )
        requires
            Self::poll_chain(zs, rs),
            zs[0].state().phase is Running,
            0 <= k < rs.len(),
            forall|i: int| 0 <= i < k ==> (#[trigger] Self::left_yields(zs)[i]).is_live() && Self::right_yields(zs)[i].is_live(),
            Self::left_yields(zs)[k] is Error || Self::right_yields(zs)[k] is Error,
        ensures
            forall|i: int| 0 <= i < k ==> (#[trigger] rs[i]).is_live(),
            forall|i: int|
                k <= i < rs.len() ==> #[trigger] rs[i] is Error && cloned(
                    first_error(Self::left_yields(zs)[k], Self::right_yields(zs)[k]),
                    rs[i]->Error_0,
                ),
    {
        let a = Self::left_yields(zs);
        let b = Self::right_yields(zs);
        Self::lemma_polls_follow_run(zs, rs);
        lemma_error_short_circuit(zs[0].state(), a, b, k);
        assert forall|i: int| 0 <= i < rs.len() implies (i < k ==> (#[trigger] rs[i]).is_live()) && (k <= i ==> rs[i] is Error && cloned(first_error(a[k], b[k]), rs[i]->Error_0)) by {
            assert(pair_cloned(zs[0].state().run(a, b)[i], rs[i]));
        }
    }

    /// Emitting keeps both values cached, over two calls of `poll`: when the
    /// first call emits a pair, the second call emits a pair too if a guard
    /// yields a value and neither ends or fails; then the left slot of both
    /// pairs is a clone of the same cached left value if the left guard
    /// yielded `Suspend`, and likewise on the right.
    pub proof fn lemma_polls_reuse_cached_values(
        z0: Self,
        z1: Self,
        z2: Self,
        r1: Signal<(Option<S1::Item>, Option<S2::Item>), S1::Error>,
        r2: Signal<(Option<S1::Item>, Option<S2::Item>), S1::Error>,
    )
        requires
            Self::polled(z0, z1, r1),
            Self::polled(z1, z2, r2),
            r1 is Value,
            yielded(z1.left_source(), z2.left_source()).is_live(),
            yielded(z1.right_source(), z2.right_source()).is_live(),
            yielded(z1.left_source(), z2.left_source()) is Value || yielded(z1.right_source(), z2.right_source()) is Value,
        ensures
            r2 is Value,
            option_cloned(z1.state().left, r1->Value_0.0),
            option_cloned(z1.state().right, r1->Value_0.1),
            yielded(z1.left_source(), z2.left_source()) is Suspend ==> option_cloned(z1.state().left, r2->Value_0.0),
            yielded(z1.right_source(), z2.right_source()) is Suspend ==> option_cloned(z1.state().right, r2->Value_0.1),
    {
    }
}

/// Once the merge has stopped, every later step emits the same signal and
/// leaves the state as it is.
proof fn lemma_halted_run<A, B, E>(s: LatestPair<A, B, E>, a: Seq<Signal<A, E>>, b: Seq<Signal<B, E>>)
    requires
        !(s.phase is Running),
        a.len() == b.len(),
    ensures
        s.run(a, b).len() == a.len(),
        forall|i: int|
            0 <= i < a.len() ==> #[trigger] s.run(a, b)[i] == s.transition(a[i], b[i]).1,
    decreases a.len(),
{
    if a.len() > 0 {
        lemma_halted_run(s, a.drop_first(), b.drop_first());
        assert forall|i: int| 0 <= i < a.len() implies #[trigger] s.run(a, b)[i] == s.transition(
            a[i],
            b[i],
        ).1 by {
            if i > 0 {
                assert(a.drop_first()[i - 1] == a[i]);
                assert(b.drop_first()[i - 1] == b[i]);
            }
        }
    }
}

/// First completion wins: when up to step `k` both sides only yielded
/// values or suspensions, and at step `k` one side signals `Done` while
/// neither fails, the merge emits `Done` at `k`, at no earlier step, and at
/// every later step, whatever the other side held.
pub proof fn lemma_first_completion_wins<A, B, E>(
    s: LatestPair<A, B, E>,
    a: Seq<Signal<A, E>>,
    b: Seq<Signal<B, E>>,
    k: int,
)
    requires
        s.phase is Running,
        a.len() == b.len(),
        0 <= k < a.len(),
        forall|i: int| 0 <= i < k ==> (#[trigger] a[i]).is_live() && b[i].is_live(),
        a[k] is Done || b[k] is Done,
        !(a[k] is Error),
        !(b[k] is Error),
    ensures
        s.run(a, b).len() == a.len(),
        forall|i: int| 0 <= i < k ==> (#[trigger] s.run(a, b)[i]).is_live(),
        forall|i: int| k <= i < a.len() ==> #[trigger] s.run(a, b)[i] is Done,
    decreases k,
{
    let t = s.transition(a[0], b[0]);
    if k == 0 {
        lemma_halted_run(t.0, a.drop_first(), b.drop_first());
    } else {
        assert(a[0].is_live() && b[0].is_live());
        lemma_first_completion_wins(t.0, a.drop_first(), b.drop_first(), k - 1);
    }
    assert forall|i: int| 0 < i < a.len() implies #[trigger] s.run(a, b)[i] == t.0.run(
        a.drop_first(),
        b.drop_first(),
    )[i - 1] by {}
    if k == 0 {
        assert forall|i: int| 0 < i < a.len() implies #[trigger] s.run(a, b)[i] is Done by {
            assert(a.drop_first()[i - 1] == a[i]);
        }
    }
}

/// The error of the first failing step: the left one where both fail.
pub open spec fn first_error<A, B, E>(a: Signal<A, E>, b: Signal<B, E>) -> E {
    if a is Error {
        a->Error_0
    } else {
        b->Error_0
    }
}

/// Error short-circuit: when up to step `k` both sides only yielded values
/// or suspensions and at step `k` a side fails, the merge emits that error
/// at `k` and at every later step, and no `Value` or `Done` after it.
pub proof fn lemma_error_short_circuit<A, B, E>(
    s: LatestPair<A, B, E>,
    a: Seq<Signal<A, E>>,
    b: Seq<Signal<B, E>>,
    k: int,
)
    requires
        s.phase is Running,
        a.len() == b.len(),
        0 <= k < a.len(),
        forall|i: int| 0 <= i < k ==> (#[trigger] a[i]).is_live() && b[i].is_live(),
        a[k] is Error || b[k] is Error,
    ensures
        s.run(a, b).len() == a.len(),
        forall|i: int| 0 <= i < k ==> (#[trigger] s.run(a, b)[i]).is_live(),
        forall|i: int|
            k <= i < a.len() ==> #[trigger] s.run(a, b)[i] == Signal::<
                (Option<A>, Option<B>),
                E,
            >::Error(first_error(a[k], b[k])),
    decreases k,
{
    let t = s.transition(a[0], b[0]);
    if k == 0 {
        lemma_halted_run(t.0, a.drop_first(), b.drop_first());
    } else {
        assert(a[0].is_live() && b[0].is_live());
        lemma_error_short_circuit(t.0, a.drop_first(), b.drop_first(), k - 1);
        assert(a.drop_first()[k - 1] == a[k]);
        assert(b.drop_first()[k - 1] == b[k]);
    }
    assert forall|i: int| 0 < i < a.len() implies #[trigger] s.run(a, b)[i] == t.0.run(
        a.drop_first(),
        b.drop_first(),
    )[i - 1] by {}
    if k == 0 {
        assert forall|i: int| 0 < i < a.len() implies #[trigger] s.run(a, b)[i] == Signal::<
            (Option<A>, Option<B>),
            E,
        >::Error(first_error(a[0], b[0])) by {
            assert(a.drop_first()[i - 1] == a[i]);
        }
    }
}

/// Emitting a pair keeps both values cached: after a step that emits a
/// pair, a step where only the right side advances emits the same left
/// value again, and one where only the left side advances emits the same
/// right value again.
pub proof fn lemma_cached_values_reused<A, B, E>(
    s: LatestPair<A, B, E>,
    a1: Signal<A, E>,
    b1: Signal<B, E>,
    a2: Signal<A, E>,
    b2: Signal<B, E>,
)
    requires
        s.transition(a1, b1).1 is Value,
        a2.is_live(),
        b2.is_live(),
    ensures
        ({
            let first = s.transition(a1, b1);
            let second = first.0.transition(a2, b2).1;
            &&& second is Value ==> (a2 is Suspend ==> second->Value_0.0 == first.1->Value_0.0)
            &&& second is Value ==> (b2 is Suspend ==> second->Value_0.1 == first.1->Value_0.1)
            &&& (a2 is Value || b2 is Value) ==> second is Value
        }),
{
}

} // verus!
