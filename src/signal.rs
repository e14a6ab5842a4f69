use vstd::prelude::*;

verus! {

/// What one non-blocking step of a producer yields.
#[derive(Debug, Clone, PartialEq, Eq)]
pub enum Signal<T, E> {
    /// Nothing yet: ask again later.
    Suspend,
    /// The next value.
    Value(T),
    /// End of the sequence.
    Done,
    /// The producer failed.
    Error(E),
}

impl<T, E> Signal<T, E> {
    /// The signal ends the sequence, by completion or by failure.
    pub open spec fn is_terminal(self) -> bool {
        self is Done || self is Error
    }

    /// The signal is a value or a request to wait.
    pub open spec fn is_live(self) -> bool {
        self is Suspend || self is Value
    }
}

/// Where a combinator stands: still merging, finished, or failed with the
/// error that stopped it.
#[derive(Debug, Clone, PartialEq, Eq)]
pub enum Phase<E> {
    Running,
    Finished,
    Failed(E),
}

/// `b` is `a` or a clone of it, slot by slot.
pub open spec fn option_cloned<T: Clone>(a: Option<T>, b: Option<T>) -> bool {
    match (a, b) {
        (None, None) => true,
        (Some(x), Some(y)) => cloned(x, y),
        _ => false,
    }
}

/// `r` is the signal `s`, with every value and error in it cloned.
pub open spec fn pair_cloned<A: Clone, B: Clone, E: Clone>(
    s: Signal<(Option<A>, Option<B>), E>,
    r: Signal<(Option<A>, Option<B>), E>,
) -> bool {
    match (s, r) {
        (Signal::Suspend, Signal::Suspend) => true,
        (Signal::Done, Signal::Done) => true,
        (Signal::Value(p), Signal::Value(q)) => option_cloned(p.0, q.0) && option_cloned(p.1, q.1),
        (Signal::Error(e), Signal::Error(f)) => cloned(e, f),
        _ => false,
    }
}

/// A pair of copies of the two cached slots.
pub(crate) fn copy_pair<A: Clone, B: Clone>(a: &Option<A>, b: &Option<B>) -> (p: (Option<A>, Option<B>))
    ensures
        option_cloned(*a, p.0),
        option_cloned(*b, p.1),
{
    (a.clone(), b.clone())
}

/// A copy of an error to hand out while the original stays stored.
pub(crate) fn copy_error<E: Clone>(e: &E) -> (r: E)
    ensures
        cloned(*e, r),
{
    e.clone()
}

/// The slot after a step: the new value if the side produced one.
pub open spec fn refreshed<T, E>(slot: Option<T>, s: Signal<T, E>) -> Option<T> {
    match s {
        Signal::Value(v) => Some(v),
        _ => slot,
    }
}

/// A producer polled by the combinators: each call of `advance` is one
/// non-blocking attempt to obtain the next value.
pub trait Source {
    type Item;
    type Error;

    fn advance(&mut self) -> Signal<Self::Item, Self::Error>;
}

/// One of the two sides of a merge.
#[derive(Debug, Clone, Copy, PartialEq, Eq)]
pub enum Side {
    Left,
    Right,
}

/// The sides whose source one step of a merge polls, in order: each side
/// that has not ended, `first` before `second`.
pub open spec fn polled_sides(first: Side, first_ended: bool, second: Side, second_ended: bool) -> Seq<Side> {
    let head = if first_ended {
        Seq::<Side>::empty()
    } else {
        seq![first]
    };
    if second_ended {
        head
    } else {
        head.push(second)
    }
}

/// A source that is never polled again once it has signalled `Done` or
/// `Error`; from then on every step yields `Done`.
pub struct GuardedSource<S: Source> {
    source: S,
    ended: bool,
    history: Ghost<Seq<Signal<S::Item, S::Error>>>,
}

impl<S: Source> GuardedSource<S> {
    /// The wrapped source has signalled `Done` or `Error`.
    pub closed spec fn ended(&self) -> bool {
        self.ended
    }

    /// Every signal the wrapped source has returned, oldest first: one entry
    /// per poll of the source.
    pub closed spec fn history(&self) -> Seq<Signal<S::Item, S::Error>> {
        self.history@
    }

    /// How many times the wrapped source has been polled.
    pub open spec fn polls(&self) -> nat {
        self.history().len()
    }

    pub fn new(source: S) -> (g: Self)
        ensures
            !g.ended(),
            g.history() == Seq::<Signal<S::Item, S::Error>>::empty(),
    {
        GuardedSource { source, ended: false, history: Ghost(Seq::empty()) }
    }

    pub fn is_ended(&self) -> (r: bool)
        ensures
            r == self.ended(),
    {
        self.ended
    }

    /// One step: polls the wrapped source unless it has already ended, and
    /// yields what it returned.
    ///
    /// Once `Done` or `Error` has come back, the source is never polled again
    /// and every later step yields `Done`.
    pub fn advance(&mut self) -> (r: Signal<S::Item, S::Error>)
        ensures
            old(self).ended() ==> r is Done && final(self).history() == old(self).history(),
            !old(self).ended() ==> final(self).history() == old(self).history().push(r),
            final(self).ended() == (old(self).ended() || r.is_terminal()),
    {
        if self.ended {
            return Signal::Done;
        }
        let r = self.source.advance();
        self.history = Ghost(self.history@.push(r));
        match r {
            Signal::Done | Signal::Error(_) => {
                self.ended = true;
            },
            _ => {},
        }
        r
    }
}

/// What one step of a guard yielded, read from the guard before and after
/// the step: `Done` if it had ended, else the signal its source returned.
pub open spec fn yielded<S: Source>(before: GuardedSource<S>, after: GuardedSource<S>) -> Signal<
    S::Item,
    S::Error,
> {
    if before.ended() {
        Signal::Done
    } else {
        after.history().last()
    }
}

/// One step of a guard, from `before` to `after`: the source was polled
/// once unless it had ended, and the guard ends on `Done` or `Error`.
pub open spec fn guard_stepped<S: Source>(before: GuardedSource<S>, after: GuardedSource<S>) -> bool {
    &&& before.ended() ==> after.history() == before.history()
    &&& !before.ended() ==> after.history() == before.history().push(yielded(before, after))
    &&& after.ended() == (before.ended() || yielded(before, after).is_terminal())
}

} // verus!
