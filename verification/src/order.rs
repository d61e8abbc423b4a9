use vstd::prelude::*;
use crate::model::{Directive, DirectiveView, directives_view};

verus! {

/// Whether no directive stands before one of an earlier date.
pub open spec fn in_date_order(directives: Seq<DirectiveView>) -> bool {
    forall|i: int, j: int| 0 <= i < j < directives.len() ==> directives[i].date.days <= directives[j].date.days
}

/// A sequence in date order with one more directive, placed after every
/// directive of its own date or an earlier one.
pub open spec fn placed(ordered: Seq<DirectiveView>, d: DirectiveView) -> Seq<DirectiveView>
    decreases ordered.len(),
{
    if ordered.len() == 0 {
        seq![d]
    } else if ordered.last().date.days <= d.date.days {
        ordered.push(d)
    } else {
        placed(ordered.drop_last(), d).push(ordered.last())
    }
}

/// The directives in the order of their dates; those of one date keep the
/// order in which they stood.
pub open spec fn sorted_by_date(directives: Seq<DirectiveView>) -> Seq<DirectiveView>
    decreases directives.len(),
{
    if directives.len() == 0 {
        Seq::empty()
    } else {
        placed(sorted_by_date(directives.drop_last()), directives.last())
    }
}

/// The order in which new directives are appended, given the order in which
/// the bank sent them (newest first): turned round, then sorted by date,
/// those of one date staying as they are after the turn.
pub open spec fn chronological(feed_order: Seq<DirectiveView>) -> Seq<DirectiveView> {
    sorted_by_date(feed_order.reverse())
}

/// The directives of a given date, in the order in which they stand.
pub open spec fn of_date(directives: Seq<DirectiveView>, days: int) -> Seq<DirectiveView> {
    directives.filter(|d: DirectiveView| d.date.days == days)
}

/// Placing a directive puts it at the position behind which every date is
/// later and before which none is.
pub proof fn lemma_placed_at(ordered: Seq<DirectiveView>, d: DirectiveView, position: int)
    requires
        0 <= position <= ordered.len(),
        forall|j: int| position <= j < ordered.len() ==> ordered[j].date.days > d.date.days,
        position > 0 ==> ordered[position - 1].date.days <= d.date.days,
    ensures
        placed(ordered, d) == ordered.insert(position, d),
    decreases ordered.len() - position,
{
    if ordered.len() == 0 {
        assert(ordered.insert(position, d) =~= seq![d]);
    } else if position == ordered.len() {
        assert(ordered.insert(position, d) =~= ordered.push(d));
    } else {
        lemma_placed_at(ordered.drop_last(), d, position);
        assert(ordered.drop_last().insert(position, d).push(ordered.last()) =~= ordered.insert(position, d));
    }
}

/// Placing a directive into a sequence in date order leaves it in date order.
pub proof fn lemma_placed_keeps_order(ordered: Seq<DirectiveView>, d: DirectiveView)
    requires
        in_date_order(ordered),
    ensures
        in_date_order(placed(ordered, d)),
        placed(ordered, d).len() == ordered.len() + 1,
        placed(ordered, d).to_multiset() == ordered.to_multiset().insert(d),
        forall|days: int| #[trigger]
            of_date(placed(ordered, d), days) == (if d.date.days == days {
                of_date(ordered, days).push(d)
            } else {
                of_date(ordered, days)
            }),
    decreases ordered.len(),
{
    broadcast use vstd::seq_lib::group_to_multiset_ensures;

    let out = placed(ordered, d);
    if ordered.len() == 0 {
        assert(out =~= ordered.push(d));
        lemma_filter_push(ordered, d);
    } else if ordered.last().date.days <= d.date.days {
        lemma_filter_push(ordered, d);
    } else {
        let front = ordered.drop_last();
        let last = ordered.last();
        assert(in_date_order(front));
        lemma_placed_keeps_order(front, d);
        let mid = placed(front, d);
        assert(ordered =~= front.push(last));
        // every element of `mid` is `d` or an element of `front`
        assert forall|i: int, j: int| 0 <= i < j < out.len() implies out[i].date.days <= out[j].date.days by {
            if j == out.len() - 1 {
                assert(mid.to_multiset().contains(mid[i]));
                assert(front.to_multiset().insert(d).contains(mid[i]));
                if mid[i] != d {
                    assert(front.to_multiset().contains(mid[i]));
                    assert(front.contains(mid[i]));
                    let k = choose|k: int| 0 <= k < front.len() && front[k] == mid[i];
                    assert(ordered[k] == mid[i]);
                }
            } else {
                assert(mid[i].date.days <= mid[j].date.days);
            }
        }
        assert(ordered.to_multiset() =~= front.to_multiset().insert(last));
        assert(out.to_multiset() =~= ordered.to_multiset().insert(d));
        lemma_filter_push(mid, last);
        lemma_filter_push(front, last);
        assert forall|days: int| #[trigger]
            of_date(out, days) == (if d.date.days == days {
                of_date(ordered, days).push(d)
            } else {
                of_date(ordered, days)
            }) by {
            assert(of_date(mid, days) == (if d.date.days == days {
                of_date(front, days).push(d)
            } else {
                of_date(front, days)
            }));
        }
    }
}

/// The directives of a date, after one more directive was put at the end.
pub proof fn lemma_filter_push(directives: Seq<DirectiveView>, d: DirectiveView)
    ensures
        forall|days: int| #[trigger]
            of_date(directives.push(d), days) == (if d.date.days == days {
                of_date(directives, days).push(d)
            } else {
                of_date(directives, days)
            }),
{
    assert forall|days: int| #[trigger]
        of_date(directives.push(d), days) == (if d.date.days == days {
            of_date(directives, days).push(d)
        } else {
            of_date(directives, days)
        }) by {
        reveal(Seq::filter);
        assert(directives.push(d).drop_last() =~= directives);
    }
}

/// Sorting by date gives a sequence in date order that holds the same
/// directives, those of each date in the order in which they stood.
pub proof fn lemma_sorted_by_date(directives: Seq<DirectiveView>)
    ensures
        in_date_order(sorted_by_date(directives)),
        sorted_by_date(directives).len() == directives.len(),
        sorted_by_date(directives).to_multiset() == directives.to_multiset(),
        forall|days: int| #[trigger] of_date(sorted_by_date(directives), days) == of_date(directives, days),
    decreases directives.len(),
{
    broadcast use vstd::seq_lib::group_to_multiset_ensures;

    if directives.len() == 0 {
        assert(sorted_by_date(directives) =~= directives);
    } else {
        let front = directives.drop_last();
        lemma_sorted_by_date(front);
        lemma_placed_keeps_order(sorted_by_date(front), directives.last());
        assert(directives =~= front.push(directives.last()));
        lemma_filter_push(front, directives.last());
        assert forall|days: int| #[trigger] of_date(sorted_by_date(directives), days) == of_date(directives, days) by {
            assert(of_date(sorted_by_date(front), days) == of_date(front, days));
        }
    }
}

/// Puts new directives, given in the order in which the bank sent them, into
/// the order in which they are appended.
pub fn order_for_append(feed_order: Vec<Directive>) -> (r: Vec<Directive>)
    ensures
        directives_view(r@) == chronological(directives_view(feed_order@)),
        in_date_order(directives_view(r@)),
{
    let ghost given = directives_view(feed_order@);
    let mut rest = feed_order;
    let mut out: Vec<Directive> = Vec::new();
    proof {
        assert(given.reverse().take(0) =~= Seq::<DirectiveView>::empty());
        assert(directives_view(out@) =~= Seq::<DirectiveView>::empty());
    }
    while rest.len() > 0
        invariant
            rest@.len() <= given.len(),
            directives_view(rest@) == given.take(rest@.len() as int),
            directives_view(out@) == sorted_by_date(given.reverse().take(given.len() - rest@.len())),
        decreases rest@.len(),
    {
        let ghost done = given.reverse().take(given.len() - rest@.len());
        let ghost before = directives_view(out@);
        let ghost rest_before = rest@;
        let d = rest.pop().unwrap();
        proof {
            lemma_sorted_by_date(done);
            let next = given.reverse().take(given.len() - rest@.len());
            assert(next.drop_last() =~= done);
            assert(directives_view(rest_before)[rest_before.len() - 1] == d@);
            assert(next.last() == d@);
            assert(directives_view(rest@) =~= given.take(rest@.len() as int));
        }
        let mut position: usize = out.len();
        while position > 0 && d.date.days < out[position - 1].date.days
            invariant
                position <= out@.len(),
                forall|j: int| position <= j < out@.len() ==> directives_view(out@)[j].date.days > d@.date.days,
            decreases position,
        {
            position -= 1;
        }
        proof {
            lemma_placed_at(before, d@, position as int);
        }
        out.insert(position, d);
        proof {
            assert(directives_view(out@) =~= before.insert(position as int, d@));
        }
    }
    proof {
        assert(given.reverse().take(given.len() as int) =~= given.reverse());
        lemma_sorted_by_date(given.reverse());
    }
    out
}

} // verus!
