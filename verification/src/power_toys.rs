//! The scope tree: forking, joining and the final report.
use std::fmt::Display;
use std::time::{Duration, Instant};
use vstd::prelude::*;
use vstd::std_specs::cmp::PartialEqSpec;
use crate::clock::{duration_nanos, elapsed_since, floored_difference, saturating_sum};
use crate::report::{is_pretty_table, pretty_table};
use crate::scope_view::{timings_view, ScopeView};

verus! {

/// A scope of a timing session, with the scopes forked from it.
///
/// [`ScopedTimer::new`] starts a session; its root scope is active from then
/// on. [`ScopedTimer::fork`] enters a nested scope and hands out a
/// [`ScopeJoinHandle`] for it. Two forks of one scope with equal identifiers
/// enter the same nested scope: choose identifiers that tell apart what is to
/// be reported apart.
#[derive(Debug)]
pub struct ScopedTimer<I> where I: Eq {
    ident: I,
    start: Instant,
    accumulated: Duration,
    times_forked: u32,
    children: Vec<ScopedTimer<I>>,
}

impl<I: Eq> View for ScopedTimer<I> {
    type V = ScopeView<I>;

    closed spec fn view(&self) -> ScopeView<I>
        decreases self,
    {
        ScopeView {
            ident: self.ident,
            start: self.start,
            accumulated: duration_nanos(self.accumulated),
            times_forked: self.times_forked as nat,
            children: Self::views(self.children@),
        }
    }
}

impl<I: Eq> ScopedTimer<I> {
    /// The views of `scopes`, one for one.
    pub closed spec fn views(scopes: Seq<Self>) -> Seq<ScopeView<I>>
        decreases scopes,
    {
        Seq::new(
            scopes.len(),
            |i: int|
                if 0 <= i < scopes.len() {
                    scopes[i].view()
                } else {
                    arbitrary()
                },
        )
    }
}

/// The exclusive right to time one scope: handed out by a fork, used up by
/// [`ScopeJoinHandle::join`].
///
/// While a handle is alive the scope it was forked from cannot be forked
/// again; nested scopes are forked from the handle. A handle that goes out of
/// scope without a `join` is joined then, through `Drop`.
///
/// The contracts speak of the scope as the handle leaves it: what a fork
/// promises of the tree is known once the handle has been joined and is out
/// of scope.
pub struct ScopeJoinHandle<'a, T> where T: Eq + Clone {
    inner: Option<&'a mut ScopedTimer<T>>,
}

impl<I: Eq + Clone> ScopedTimer<I> {
    /// Starts a session whose root scope is `ident`. The root is active at
    /// once, without a fork of its own.
    pub fn new(ident: I) -> (timer: Self)
        ensures
            timer@ == ScopeView::fresh(ident, timer@.start),
    {
        Self::starting_at(ident, Instant::now())
    }

    /// Starts a session whose root scope is `ident`, active since `now`.
    pub fn starting_at(ident: I, now: Instant) -> (timer: Self)
        ensures
            timer@ == ScopeView::fresh(ident, now),
    {
        let timer = ScopedTimer {
            ident,
            start: now,
            accumulated: Duration::from_nanos(0),
            times_forked: 0,
            children: Vec::new(),
        };
        assert(timer@.children =~= Seq::empty());
        timer
    }

    /// Enters the scope forked from this one as `ident`, at `now`: the first
    /// child with an equal identifier, or a new last child where there is
    /// none. The child counts one more fork and is active since `now`; so
    /// does this scope count one more. What the child is when the handle is
    /// done with it takes its place among the children.
    pub fn fork_at<'prt>(&'prt mut self, ident: I, now: Instant) -> (handle: ScopeJoinHandle<
        'prt,
        I,
    >)
        requires
            old(self)@.times_forked < u32::MAX,
            ScopeView::can_count(old(self)@.children),
        ensures
            handle.live(),
            exists|slot: Option<int>|
                {
                    &&& #[trigger] ScopeView::lands_at(old(self)@.children, ident, slot)
                    &&& handle.scope()@ == ScopeView::entered(
                        old(self)@.children,
                        slot,
                        ident,
                        now,
                    )
                    &&& final(self)@ == old(self)@.counted().with_child(
                        slot,
                        final(handle.scope())@,
                    )
                },
    {
        self.times_forked += 1;
        search_and_push(&mut self.children, ident, now)
    }

    /// Enters the scope forked from this one as `ident`, now.
    pub fn fork<'prt>(&'prt mut self, ident: I) -> (handle: ScopeJoinHandle<'prt, I>)
        requires
            old(self)@.times_forked < u32::MAX,
            ScopeView::can_count(old(self)@.children),
        ensures
            handle.live(),
            exists|slot: Option<int>, now: Instant|
                {
                    &&& ScopeView::lands_at(old(self)@.children, ident, slot)
                    &&& handle.scope()@ == #[trigger] ScopeView::entered(
                        old(self)@.children,
                        slot,
                        ident,
                        now,
                    )
                    &&& final(self)@ == old(self)@.counted().with_child(
                        slot,
                        final(handle.scope())@,
                    )
                },
    {
        self.fork_at(ident, Instant::now())
    }

    /// Ends the session after `elapsed` more time in the root scope, and
    /// reports every scope with its self time and fork count, the scopes
    /// below a scope before the scope.
    pub fn join_and_finish_after(self, elapsed: Duration) -> (timings: Vec<(I, Duration, u32)>)
        ensures
            timings_view(timings@) == self@.joined(duration_nanos(elapsed)).report(),
    {
        let mut timer = self;
        timer.join_after(elapsed);
        let mut timings = Vec::new();
        timer.finish(&mut timings);
        assert(timings_view(Seq::<(I, Duration, u32)>::empty()) =~= Seq::empty());
        timings
    }

    /// Ends the session now, and reports every scope with its self time and
    /// fork count, the scopes below a scope before the scope. The root has
    /// been active since it was made.
    pub fn join_and_finish(self) -> (timings: Vec<(I, Duration, u32)>)
        ensures
            exists|elapsed: nat|
                timings_view(timings@) == (#[trigger] self@.joined(elapsed)).report(),
    {
        let elapsed = elapsed_since(&self.start);
        self.join_and_finish_after(elapsed)
    }

    /// Ends the session now, and renders the report as a table, the scopes
    /// ordered by self time, longest first.
    pub fn join_and_finish_pretty(self) -> (table: String) where I: Display
        ensures
            exists|elapsed: nat|
                is_pretty_table((#[trigger] self@.joined(elapsed)).report(), table@),
    {
        let timings = self.join_and_finish();
        pretty_table(timings)
    }
}

impl<I: Eq> ScopedTimer<I> {
    /// Appends the report of the tree to `v`: the scopes below a scope before
    /// the scope, each with its self time.
    fn finish(self, v: &mut Vec<(I, Duration, u32)>)
        ensures
            timings_view(final(v)@) == timings_view(old(v)@) + self@.report(),
        decreases self,
    {
        let ghost kids = Self::views(self.children@);
        let ghost whole = self@;
        let ScopedTimer { ident, start: _, accumulated, times_forked, children } = self;
        let mut horde = accumulated;
        for child in it: children
            invariant
                it.seq() == self.children@,
                kids == Self::views(self.children@),
                timings_view(v@) == timings_view(old(v)@) + ScopeView::reports(
                    kids.take(it.index() as int),
                ),
                duration_nanos(horde) == floored_difference(
                    duration_nanos(accumulated),
                    ScopeView::total_accumulated(kids.take(it.index() as int)),
                ),
        {
            proof {
                ScopeView::lemma_total_accumulated_step(kids, it.index() as int);
                ScopeView::lemma_reports_step(kids, it.index() as int);
            }
            horde = horde.saturating_sub(child.accumulated);
            child.finish(v);
        }
        assert(kids.take(kids.len() as int) =~= kids);
        let ghost listed = v@;
        v.push((ident, horde, times_forked));
        assert(timings_view(v@) =~= timings_view(listed).push(
            (ident, duration_nanos(horde), times_forked as nat),
        ));
        assert(whole.report() == ScopeView::reports(kids).push(
            (ident, duration_nanos(horde), times_forked as nat),
        ));
        assert(timings_view(v@) =~= timings_view(old(v)@) + whole.report());
    }

    /// Folds `elapsed` into the scope.
    fn join_after(&mut self, elapsed: Duration)
        ensures
            final(self)@ == old(self)@.joined(duration_nanos(elapsed)),
        opens_invariants none
        no_unwind
    {
        self.accumulated = saturating_sum(self.accumulated, elapsed);
    }

    /// Folds the time since the scope's activation into the scope.
    fn join(&mut self)
        ensures
            exists|elapsed: nat| final(self)@ == #[trigger] old(self)@.joined(elapsed),
        opens_invariants none
        no_unwind
    {
        let elapsed = elapsed_since(&self.start);
        self.join_after(elapsed);
    }
}

impl<'a, T: Eq + Clone> ScopeJoinHandle<'a, T> {
    /// Whether the handle still holds its scope. It does from the fork to
    /// the join.
    pub closed spec fn live(self) -> bool {
        self.inner is Some
    }

    /// The scope that the handle times.
    pub closed spec fn scope(self) -> &'a mut ScopedTimer<T> {
        self.inner->0
    }

    /// Enters the scope forked from the handle's scope as `ident`, at `now`:
    /// the first child with an equal identifier, or a new last child where
    /// there is none. The child counts one more fork and is active since
    /// `now`. What the child is when its handle is done with it takes its
    /// place among the children of this handle's scope, which the handle
    /// goes on to time.
    pub fn fork_at<'prt>(&'prt mut self, ident: T, now: Instant) -> (handle: ScopeJoinHandle<
        'prt,
        T,
    >)
        requires
            old(self).live(),
            ScopeView::can_count(old(self).scope()@.children),
        ensures
            handle.live(),
            final(self).live(),
            *final(final(self).scope()) == *final(old(self).scope()),
            exists|slot: Option<int>|
                {
                    &&& #[trigger] ScopeView::lands_at(old(self).scope()@.children, ident, slot)
                    &&& handle.scope()@ == ScopeView::entered(
                        old(self).scope()@.children,
                        slot,
                        ident,
                        now,
                    )
                    &&& final(self).scope()@ == old(self).scope()@.with_child(
                        slot,
                        final(handle.scope())@,
                    )
                },
    {
        match &mut self.inner {
            Some(scope) => {
                search_and_push(&mut scope.children, ident, now)
            },
            None => ScopeJoinHandle { inner: None },
        }
    }

    /// Enters the scope forked from the handle's scope as `ident`, now.
    pub fn fork<'prt>(&'prt mut self, ident: T) -> (handle: ScopeJoinHandle<'prt, T>)
        requires
            old(self).live(),
            ScopeView::can_count(old(self).scope()@.children),
        ensures
            handle.live(),
            final(self).live(),
            *final(final(self).scope()) == *final(old(self).scope()),
            exists|slot: Option<int>, now: Instant|
                {
                    &&& ScopeView::lands_at(old(self).scope()@.children, ident, slot)
                    &&& handle.scope()@ == #[trigger] ScopeView::entered(
                        old(self).scope()@.children,
                        slot,
                        ident,
                        now,
                    )
                    &&& final(self).scope()@ == old(self).scope()@.with_child(
                        slot,
                        final(handle.scope())@,
                    )
                },
    {
        self.fork_at(ident, Instant::now())
    }

    /// Ends the activation, folding `elapsed` into the scope.
    pub fn join_after(self, elapsed: Duration)
        requires
            self.live(),
        ensures
            final(self.scope())@ == old(self.scope())@.joined(duration_nanos(elapsed)),
    {
        let mut handle = self;
        match handle.inner.take() {
            Some(scope) => scope.join_after(elapsed),
            None => {},
        }
    }

    /// Ends the activation, folding the time since the fork into the scope.
    pub fn join(self)
        requires
            self.live(),
        ensures
            exists|elapsed: nat|
                final(self.scope())@ == #[trigger] old(self.scope())@.joined(elapsed),
    {
        let mut handle = self;
        match handle.inner.take() {
            Some(scope) => {
                assert(scope@ == old(self.scope())@);
                scope.join();
            },
            None => {},
        }
    }
}

impl<'a, T: Eq + Clone> Drop for ScopeJoinHandle<'a, T> {
    /// Joins the scope where the handle was not joined before.
    fn drop(&mut self)
        ensures
            final(self).live() == old(self).live(),
            old(self).live() ==> exists|elapsed: nat|
                final(self).scope()@ == #[trigger] old(self).scope()@.joined(elapsed),
        opens_invariants none
        no_unwind
    {
        match &mut self.inner {
            Some(scope) => {
                assert(scope@ == old(self).scope()@);
                scope.join();
            },
            None => {},
        }
    }
}

/// Finds the child of `v` forked as `ident`, or appends a new one, and
/// activates it at `now`.
fn search_and_push<'vec, I: Eq + Clone>(
    v: &'vec mut Vec<ScopedTimer<I>>,
    ident: I,
    now: Instant,
) -> (handle: ScopeJoinHandle<'vec, I>)
    requires
        ScopeView::can_count(ScopedTimer::views(old(v)@)),
    ensures
        handle.live(),
        exists|slot: Option<int>|
            {
                &&& #[trigger] ScopeView::lands_at(ScopedTimer::views(old(v)@), ident, slot)
                &&& handle.scope()@ == ScopeView::entered(
                    ScopedTimer::views(old(v)@),
                    slot,
                    ident,
                    now,
                )
                &&& ScopedTimer::views(final(v)@) =~= ScopeView::placed(
                    ScopedTimer::views(old(v)@),
                    slot,
                    final(handle.scope())@,
                )
            },
{
    let mut index: usize = 0;
    let mut found = false;
    while index < v.len() && !found
        invariant
            index <= v.len(),
            *v == *old(v),
            found ==> index < v.len(),
            I::obeys_eq_spec() ==> forall|j: int|
                0 <= j < index ==> !(#[trigger] v@[j]).ident.eq_spec(&ident),
            I::obeys_eq_spec() && found ==> v@[index as int].ident.eq_spec(&ident),
        decreases v.len() - index + if found { 0int } else { 1int },
    {
        if v[index].ident == ident {
            found = true;
        } else {
            index += 1;
        }
    }
    let ghost before = ScopedTimer::views(v@);
    if found {
        assert(before[index as int] == v@[index as int]@);
        let entry = &mut v[index];
        entry.times_forked += 1;
        entry.start = now;
        let handle = ScopeJoinHandle { inner: Some(entry) };
        proof {
            let slot = Some(index as int);
            assert(ScopeView::lands_at(before, ident, slot));
            assert(handle.scope()@ == ScopeView::entered(before, slot, ident, now));
        }
        handle
    } else {
        let mut timer = ScopedTimer::starting_at(ident, now);
        timer.times_forked = 1;
        v.push(timer);
        let last = v.len() - 1;
        let handle = ScopeJoinHandle { inner: Some(&mut v[last]) };
        proof {
            let slot = None::<int>;
            assert(ScopeView::lands_at(before, ident, slot));
            assert(handle.scope()@ == ScopeView::entered(before, slot, ident, now));
        }
        handle
    }
}

} // verus!
