//! The mathematical model of a scope tree, and what forking, joining and
//! reporting mean on it.
use std::time::{Duration, Instant};
use vstd::prelude::*;
use vstd::std_specs::cmp::PartialEqSpec;
use crate::clock::{capped_sum, duration_nanos, floored_difference};

verus! {

/// A scope and the scopes nested in it, as plain values.
pub struct ScopeView<I> {
    /// The key that the scope was forked with.
    pub ident: I,
    /// When the scope was last activated.
    pub start: Instant,
    /// The nanoseconds folded into the scope by its joins so far.
    pub accumulated: nat,
    /// How often the scope was forked.
    pub times_forked: nat,
    /// The scopes forked from this one, in the order of their first fork.
    pub children: Seq<ScopeView<I>>,
}

/// One line of a report: identifier, self time in nanoseconds, fork count.
pub type Entry<I> = (I, nat, nat);

/// A report as the executable code holds it, line for line as plain values.
pub open spec fn timings_view<I>(timings: Seq<(I, Duration, u32)>) -> Seq<Entry<I>> {
    timings.map_values(|t: (I, Duration, u32)| (t.0, duration_nanos(t.1), t.2 as nat))
}

impl<I> ScopeView<I> {
    /// A scope that has never been forked or joined.
    pub open spec fn fresh(ident: I, start: Instant) -> Self {
        ScopeView { ident, start, accumulated: 0, times_forked: 0, children: Seq::empty() }
    }

    /// The scope after one more activation at `now`.
    pub open spec fn activated(self, now: Instant) -> Self {
        ScopeView { start: now, times_forked: self.times_forked + 1, ..self }
    }

    /// The scope after a join that measured `elapsed` nanoseconds.
    pub open spec fn joined(self, elapsed: nat) -> Self {
        ScopeView { accumulated: capped_sum(self.accumulated, elapsed), ..self }
    }

    /// The nanoseconds that the scopes in `scopes` have accumulated together.
    pub open spec fn total_accumulated(scopes: Seq<Self>) -> nat
        decreases scopes.len(),
    {
        if scopes.len() == 0 {
            0
        } else {
            Self::total_accumulated(scopes.drop_last()) + scopes.last().accumulated
        }
    }

    /// The time spent in the scope outside its children: what it accumulated
    /// less what its children accumulated, and zero where that is negative.
    pub open spec fn self_time(self) -> nat {
        floored_difference(self.accumulated, Self::total_accumulated(self.children))
    }

    /// The report of the tree: every scope below a scope before that scope.
    pub open spec fn report(self) -> Seq<Entry<I>>
        decreases self,
    {
        Self::reports(self.children).push((self.ident, self.self_time(), self.times_forked))
    }

    /// The reports of `scopes`, one after the other.
    pub open spec fn reports(scopes: Seq<Self>) -> Seq<Entry<I>>
        decreases scopes,
    {
        if scopes.len() == 0 {
            Seq::empty()
        } else {
            Self::reports(scopes.drop_last()) + scopes.last().report()
        }
    }
}

impl<I> ScopeView<I> {
    /// What one more scope adds to the total of those before it.
    pub proof fn lemma_total_accumulated_step(scopes: Seq<Self>, k: int)
        requires
            0 <= k < scopes.len(),
        ensures
            Self::total_accumulated(scopes.take(k + 1)) == Self::total_accumulated(scopes.take(k))
                + scopes[k].accumulated,
    {
        assert(scopes.take(k + 1).drop_last() =~= scopes.take(k));
    }

    /// What one more scope adds to the reports of those before it.
    pub proof fn lemma_reports_step(scopes: Seq<Self>, k: int)
        requires
            0 <= k < scopes.len(),
        ensures
            Self::reports(scopes.take(k + 1)) == Self::reports(scopes.take(k))
                + scopes[k].report(),
    {
        assert(scopes.take(k + 1).drop_last() =~= scopes.take(k));
    }
}

impl<I: PartialEq> ScopeView<I> {
    /// Whether `slot` is where a fork of `ident` lands among `children`: at
    /// the first child whose identifier equals `ident`, or at none where no
    /// child has it.
    pub open spec fn is_slot_of(children: Seq<Self>, ident: I, slot: Option<int>) -> bool {
        match slot {
            Some(i) => {
                &&& 0 <= i < children.len()
                &&& children[i].ident.eq_spec(&ident)
                &&& forall|j: int| 0 <= j < i ==> !(#[trigger] children[j]).ident.eq_spec(&ident)
            },
            None => forall|j: int|
                0 <= j < children.len() ==> !(#[trigger] children[j]).ident.eq_spec(&ident),
        }
    }

    /// Whether a fork of `ident` among `children` may come out at `slot`.
    /// Where the identifiers' `==` is the equality that contracts speak of,
    /// there is one such slot.
    pub open spec fn lands_at(children: Seq<Self>, ident: I, slot: Option<int>) -> bool {
        &&& slot matches Some(i) ==> 0 <= i < children.len()
        &&& I::obeys_eq_spec() ==> Self::is_slot_of(children, ident, slot)
    }

    /// No two of `children` have equal identifiers.
    pub open spec fn distinct_idents(children: Seq<Self>) -> bool {
        forall|i: int, j: int|
            0 <= i < j < children.len() ==> !(#[trigger] children[i]).ident.eq_spec(
                &(#[trigger] children[j]).ident,
            )
    }

    /// Throughout the tree no two children of one scope have equal
    /// identifiers.
    pub open spec fn well_formed(self) -> bool
        decreases self,
    {
        &&& Self::distinct_idents(self.children)
        &&& forall|i: int|
            0 <= i < self.children.len() ==> (#[trigger] self.children[i]).well_formed()
    }
}

impl<I> ScopeView<I> {
    /// The child that a fork of `ident` at `now` activates, where the fork
    /// lands at `slot`.
    pub open spec fn entered(children: Seq<Self>, slot: Option<int>, ident: I, now: Instant) -> Self {
        match slot {
            Some(i) => children[i].activated(now),
            None => Self::fresh(ident, now).activated(now),
        }
    }

    /// The children once the child forked at `slot` is given back as `child`.
    pub open spec fn placed(children: Seq<Self>, slot: Option<int>, child: Self) -> Seq<Self> {
        match slot {
            Some(i) => children.update(i, child),
            None => children.push(child),
        }
    }

    /// The scope with one more fork counted.
    pub open spec fn counted(self) -> Self {
        ScopeView { times_forked: self.times_forked + 1, ..self }
    }

    /// The scope once the child forked at `slot` is given back as `child`.
    pub open spec fn with_child(self, slot: Option<int>, child: Self) -> Self {
        ScopeView { children: Self::placed(self.children, slot, child), ..self }
    }

    /// Each of `children` can count one more fork in a `u32`.
    pub open spec fn can_count(children: Seq<Self>) -> bool {
        forall|i: int| 0 <= i < children.len() ==> (#[trigger] children[i]).times_forked < u32::MAX
    }
}

} // verus!
