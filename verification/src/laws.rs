//! What holds of every scope tree: of its report, of forks that meet the
//! same child again, and of the order in which nested scopes are joined.
use std::time::Instant;
use vstd::prelude::*;
use vstd::std_specs::cmp::PartialEqSpec;
use crate::clock::{capped_sum, floored_difference};
use crate::scope_view::{Entry, ScopeView};

verus! {

/// Every scope of the tree, the scopes below a scope before the scope.
pub open spec fn scopes_of<I>(tree: ScopeView<I>) -> Seq<ScopeView<I>>
    decreases tree,
{
    scopes_among(tree.children).push(tree)
}

/// Every scope of the trees in `trees`, tree after tree.
pub open spec fn scopes_among<I>(trees: Seq<ScopeView<I>>) -> Seq<ScopeView<I>>
    decreases trees,
{
    if trees.len() == 0 {
        Seq::empty()
    } else {
        scopes_among(trees.drop_last()) + scopes_of(trees.last())
    }
}

/// The line that a report holds for `scope`.
pub open spec fn entry_of<I>(scope: ScopeView<I>) -> Entry<I> {
    (
        scope.ident,
        floored_difference(scope.accumulated, ScopeView::total_accumulated(scope.children)),
        scope.times_forked,
    )
}

/// A report holds one line for every scope of the tree, and the self time
/// in it is what the scope accumulated less what its children accumulated,
/// or zero where the children accumulated more.
pub proof fn lemma_report_lists_every_scope<I>(tree: ScopeView<I>)
    ensures
        tree.report().len() == scopes_of(tree).len(),
        forall|k: int|
            0 <= k < scopes_of(tree).len() ==> #[trigger] tree.report()[k] == entry_of(
                scopes_of(tree)[k],
            ),
    decreases tree,
{
    lemma_reports_list_every_scope(tree.children);
}

/// The reports of several trees hold one line for every scope of them.
pub proof fn lemma_reports_list_every_scope<I>(trees: Seq<ScopeView<I>>)
    ensures
        ScopeView::reports(trees).len() == scopes_among(trees).len(),
        forall|k: int|
            0 <= k < scopes_among(trees).len() ==> #[trigger] ScopeView::reports(trees)[k]
                == entry_of(scopes_among(trees)[k]),
    decreases trees,
{
    if trees.len() > 0 {
        lemma_reports_list_every_scope(trees.drop_last());
        lemma_report_lists_every_scope(trees.last());
    }
}

/// A second fork of an identifier under the same scope enters the child of
/// the first: no child is added, and the child counts one fork more than
/// when the first handle gave it back.
pub proof fn lemma_second_fork_merges<I: PartialEq>(
    children: Seq<ScopeView<I>>,
    ident: I,
    first: Option<int>,
    now: Instant,
    released: ScopeView<I>,
    second: Option<int>,
    later: Instant,
)
    requires
        ident.eq_spec(&ident),
        ScopeView::is_slot_of(children, ident, first),
        released.ident == ScopeView::entered(children, first, ident, now).ident,
        ScopeView::is_slot_of(ScopeView::placed(children, first, released), ident, second),
    ensures
        second == Some(
            match first {
                Some(i) => i,
                None => children.len() as int,
            },
        ),
        forall|again: ScopeView<I>|
            (#[trigger] ScopeView::placed(
                ScopeView::placed(children, first, released),
                second,
                again,
            )).len() == ScopeView::placed(children, first, released).len(),
        ScopeView::entered(
            ScopeView::placed(children, first, released),
            second,
            ident,
            later,
        ).times_forked == released.times_forked + 1,
{
    let after = ScopeView::placed(children, first, released);
    let at = match first {
        Some(i) => i,
        None => children.len() as int,
    };
    assert(after[at].ident.eq_spec(&ident));
    assert forall|j: int| 0 <= j < at implies !(#[trigger] after[j]).ident.eq_spec(&ident) by {
        assert(after[j] == children[j]);
    }
}

/// A fork leaves the identifiers of a scope's children distinct, whatever
/// the handle does to the child before it gives it back, as long as the
/// child keeps its identifier.
pub proof fn lemma_fork_keeps_idents_distinct<I: PartialEq>(
    children: Seq<ScopeView<I>>,
    ident: I,
    slot: Option<int>,
    now: Instant,
    released: ScopeView<I>,
)
    requires
        ScopeView::distinct_idents(children),
        ScopeView::is_slot_of(children, ident, slot),
        released.ident == ScopeView::entered(children, slot, ident, now).ident,
    ensures
        ScopeView::distinct_idents(ScopeView::placed(children, slot, released)),
{
    let after = ScopeView::placed(children, slot, released);
    assert forall|i: int, j: int| 0 <= i < j < after.len() implies !(#[trigger] after[i]).ident.eq_spec(
        &(#[trigger] after[j]).ident,
    ) by {
        match slot {
            Some(at) => {
                assert(after[i].ident == children[i].ident);
                assert(after[j].ident == children[j].ident);
            },
            None => {
                if j < children.len() {
                    assert(after[i] == children[i] && after[j] == children[j]);
                } else {
                    assert(after[i] == children[i]);
                }
            },
        }
    }
}

/// Where a fork of `ident` lands among `children`, found by going through
/// them in order.
pub open spec fn slot_of<I: PartialEq>(children: Seq<ScopeView<I>>, ident: I) -> Option<int>
    decreases children.len(),
{
    if children.len() == 0 {
        None
    } else {
        match slot_of(children.drop_last(), ident) {
            Some(i) => Some(i),
            None => if children.last().ident.eq_spec(&ident) {
                Some(children.len() - 1)
            } else {
                None
            },
        }
    }
}

/// A fork has exactly one slot to land at.
pub proof fn lemma_one_slot<I: PartialEq>(children: Seq<ScopeView<I>>, ident: I)
    ensures
        ScopeView::is_slot_of(children, ident, slot_of(children, ident)),
        forall|slot: Option<int>| #[trigger]
            ScopeView::is_slot_of(children, ident, slot) ==> slot == slot_of(children, ident),
    decreases children.len(),
{
    if children.len() > 0 {
        let rest = children.drop_last();
        lemma_one_slot(rest, ident);
        assert(ScopeView::is_slot_of(children, ident, slot_of(children, ident))) by {
            match slot_of(rest, ident) {
                Some(i) => {
                    assert(rest[i] == children[i]);
                    assert forall|j: int| 0 <= j < i implies !(#[trigger] children[j]).ident.eq_spec(
                        &ident,
                    ) by {
                        assert(rest[j] == children[j]);
                    }
                },
                None => {
                    assert forall|j: int| 0 <= j < rest.len() implies !(#[trigger] children[j]).ident.eq_spec(
                        &ident,
                    ) by {
                        assert(rest[j] == children[j]);
                    }
                },
            }
        }
    }
    assert forall|slot: Option<int>| #[trigger]
        ScopeView::is_slot_of(children, ident, slot) implies slot == slot_of(children, ident) by {
        let found = slot_of(children, ident);
        match (slot, found) {
            (Some(a), Some(b)) => {
                if a < b {
                    assert(!children[a].ident.eq_spec(&ident));
                }
                if b < a {
                    assert(!children[b].ident.eq_spec(&ident));
                }
            },
            (Some(a), None) => {
                assert(!children[a].ident.eq_spec(&ident));
            },
            (None, Some(b)) => {
                assert(!children[b].ident.eq_spec(&ident));
            },
            (None, None) => {},
        }
    }
}

/// The children of a scope after a fork of `ident` at `now` that is joined
/// after `elapsed` nanoseconds, with nothing forked in between.
pub open spec fn forked_and_joined<I: PartialEq>(
    children: Seq<ScopeView<I>>,
    ident: I,
    now: Instant,
    elapsed: nat,
) -> Seq<ScopeView<I>> {
    let slot = slot_of(children, ident);
    ScopeView::placed(
        children,
        slot,
        ScopeView::entered(children, slot, ident, now).joined(elapsed),
    )
}

/// The children of a scope after one fork of `ident` for each of `rounds`,
/// each joined before the next: a round is the instant of the fork and the
/// nanoseconds that its join measured.
pub open spec fn forked_in_rounds<I: PartialEq>(
    children: Seq<ScopeView<I>>,
    ident: I,
    rounds: Seq<(Instant, nat)>,
) -> Seq<ScopeView<I>>
    decreases rounds.len(),
{
    if rounds.len() == 0 {
        children
    } else {
        forked_and_joined(
            forked_in_rounds(children, ident, rounds.drop_last()),
            ident,
            rounds.last().0,
            rounds.last().1,
        )
    }
}

/// The nanoseconds that a scope has accumulated after the joins of
/// `rounds`, one after the other.
pub open spec fn accumulated_in_rounds(rounds: Seq<(Instant, nat)>) -> nat
    decreases rounds.len(),
{
    if rounds.len() == 0 {
        0
    } else {
        capped_sum(accumulated_in_rounds(rounds.drop_last()), rounds.last().1)
    }
}

/// However often an identifier that no child has yet is forked and joined
/// under a scope, the scope gets one child for it, after the children it
/// had. That child has counted every one of the forks, was last activated
/// at the last of them, and has accumulated what the joins measured.
pub proof fn lemma_forks_of_one_identifier_merge<I: PartialEq>(
    children: Seq<ScopeView<I>>,
    ident: I,
    rounds: Seq<(Instant, nat)>,
)
    requires
        ident.eq_spec(&ident),
        ScopeView::is_slot_of(children, ident, None),
        rounds.len() > 0,
    ensures
        forked_in_rounds(children, ident, rounds) == children.push(
            ScopeView {
                ident,
                start: rounds.last().0,
                accumulated: accumulated_in_rounds(rounds),
                times_forked: rounds.len(),
                children: Seq::empty(),
            },
        ),
    decreases rounds.len(),
{
    let earlier = rounds.drop_last();
    let before = forked_in_rounds(children, ident, earlier);
    if earlier.len() == 0 {
        lemma_one_slot(children, ident);
        assert(before == children);
        assert(accumulated_in_rounds(earlier) == 0);
        assert(capped_sum(0, rounds.last().1) == accumulated_in_rounds(rounds));
    } else {
        lemma_forks_of_one_identifier_merge(children, ident, earlier);
        let at = children.len() as int;
        assert(before[at].ident.eq_spec(&ident));
        assert forall|j: int| 0 <= j < at implies !(#[trigger] before[j]).ident.eq_spec(&ident) by {
            assert(before[j] == children[j]);
        }
        assert(ScopeView::is_slot_of(before, ident, Some(at)));
        lemma_one_slot(before, ident);
        assert(slot_of(before, ident) == Some(at));
        assert(forked_in_rounds(children, ident, rounds) =~= children.push(
            ScopeView {
                ident,
                start: rounds.last().0,
                accumulated: accumulated_in_rounds(rounds),
                times_forked: rounds.len(),
                children: Seq::empty(),
            },
        ));
    }
}

/// A scope that was never forked is well formed.
pub proof fn lemma_fresh_is_well_formed<I: PartialEq>(ident: I, start: Instant)
    ensures
        ScopeView::fresh(ident, start).well_formed(),
{
}

/// A join leaves a well-formed tree well formed.
pub proof fn lemma_join_keeps_well_formed<I: PartialEq>(scope: ScopeView<I>, elapsed: nat)
    requires
        scope.well_formed(),
    ensures
        scope.joined(elapsed).well_formed(),
{
}

/// The child that a fork of a well-formed scope enters is well formed.
pub proof fn lemma_entered_is_well_formed<I: PartialEq>(
    scope: ScopeView<I>,
    ident: I,
    slot: Option<int>,
    now: Instant,
)
    requires
        scope.well_formed(),
        ScopeView::is_slot_of(scope.children, ident, slot),
    ensures
        ScopeView::entered(scope.children, slot, ident, now).well_formed(),
{
    match slot {
        Some(at) => {
            assert(scope.children[at].well_formed());
        },
        None => {},
    }
}

/// A fork leaves a well-formed tree well formed, whatever the handle does to
/// the child before it gives it back, as long as the child is well formed
/// then and has kept its identifier.
pub proof fn lemma_fork_keeps_well_formed<I: PartialEq>(
    scope: ScopeView<I>,
    ident: I,
    slot: Option<int>,
    now: Instant,
    released: ScopeView<I>,
)
    requires
        scope.well_formed(),
        ScopeView::is_slot_of(scope.children, ident, slot),
        released.ident == ScopeView::entered(scope.children, slot, ident, now).ident,
        released.well_formed(),
    ensures
        scope.with_child(slot, released).well_formed(),
        scope.counted().with_child(slot, released).well_formed(),
{
    lemma_fork_keeps_idents_distinct(scope.children, ident, slot, now, released);
    let after = ScopeView::placed(scope.children, slot, released);
    assert forall|i: int| 0 <= i < after.len() implies (#[trigger] after[i]).well_formed() by {
        if after[i] != released {
            assert(after[i] == scope.children[i]);
        }
    }
    assert(scope.with_child(slot, released).children == after);
    assert(scope.counted().with_child(slot, released).children == after);
}

/// A scope that is joined after a scope nested in it, and for no shorter a
/// time, has accumulated no less than the nested scope, where it had not
/// before.
pub proof fn lemma_outer_join_covers_inner<I>(
    outer: ScopeView<I>,
    inner: ScopeView<I>,
    outer_elapsed: nat,
    inner_elapsed: nat,
)
    requires
        inner.accumulated <= outer.accumulated,
        inner_elapsed <= outer_elapsed,
    ensures
        inner.joined(inner_elapsed).accumulated <= outer.joined(outer_elapsed).accumulated,
{
}

/// A join never takes time from a scope that holds no more than the
/// longest duration, and changes nothing else of it.
pub proof fn lemma_join_only_adds<I>(scope: ScopeView<I>, elapsed: nat)
    requires
        scope.accumulated <= crate::clock::max_duration_nanos(),
    ensures
        scope.joined(elapsed).accumulated >= scope.accumulated,
        scope.joined(elapsed) == (ScopeView { accumulated: scope.joined(elapsed).accumulated, ..scope }),
{
}

} // verus!
