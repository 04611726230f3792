//! Totals per extension: what it means to add a file's metric to them, and
//! what holds of them whatever files came by, and in whatever order.

use crate::keyed::{
    ascending, get, has_key, keys_of, lemma_put, lemma_put_commutes, lemma_rank_parts,
    lemma_rows_determined, put, rank,
};
use vstd::multiset::*;
use vstd::prelude::*;
use vstd::seq_lib::*;

verus! {

/// What is counted for `ext`: the total of its row, or nothing.
pub open spec fn total_of(rows: Seq<(Seq<char>, u64)>, ext: Seq<char>) -> nat {
    match get(rows, ext) {
        Some(total) => total as nat,
        None => 0,
    }
}

/// The totals of all extensions together.
pub open spec fn grand_total(rows: Seq<(Seq<char>, u64)>) -> nat
    decreases rows.len(),
{
    if rows.len() == 0 {
        0
    } else {
        grand_total(rows.drop_last()) + rows.last().1 as nat
    }
}

/// The rows after `count` was added to the total of `ext`, which starts at 0.
pub open spec fn added(rows: Seq<(Seq<char>, u64)>, ext: Seq<char>, count: u64) -> Seq<
    (Seq<char>, u64),
> {
    put(rows, ext, (total_of(rows, ext) + count) as u64)
}

/// Adding a row adds what it holds to the total of all rows.
pub proof fn lemma_grand_total_insert(rows: Seq<(Seq<char>, u64)>, at: int, row: (Seq<char>, u64))
    requires
        0 <= at <= rows.len(),
    ensures
        grand_total(rows.insert(at, row)) == grand_total(rows) + row.1,
    decreases rows.len(),
{
    let after = rows.insert(at, row);
    if at == rows.len() {
        assert(after.drop_last() =~= rows);
    } else {
        lemma_grand_total_insert(rows.drop_last(), at, row);
        assert(after.drop_last() =~= rows.drop_last().insert(at, row));
    }
}

/// Replacing a row replaces what it held in the total of all rows.
pub proof fn lemma_grand_total_update(rows: Seq<(Seq<char>, u64)>, at: int, row: (Seq<char>, u64))
    requires
        0 <= at < rows.len(),
    ensures
        grand_total(rows.update(at, row)) == grand_total(rows) - rows[at].1 + row.1,
    decreases rows.len(),
{
    let after = rows.update(at, row);
    if at == rows.len() - 1 {
        assert(after.drop_last() =~= rows.drop_last());
    } else {
        lemma_grand_total_update(rows.drop_last(), at, row);
        assert(after.drop_last() =~= rows.drop_last().update(at, row));
    }
}

/// No extension's total is more than the total of all.
pub proof fn lemma_total_within_grand_total(rows: Seq<(Seq<char>, u64)>, at: int)
    requires
        0 <= at < rows.len(),
    ensures
        rows[at].1 <= grand_total(rows),
    decreases rows.len(),
{
    if at < rows.len() - 1 {
        lemma_total_within_grand_total(rows.drop_last(), at);
    }
}

/// Every increment adds its metric to the extension's total, leaves the other
/// totals alone, and so adds just its metric to the total of all extensions.
pub proof fn lemma_added(rows: Seq<(Seq<char>, u64)>, ext: Seq<char>, count: u64)
    requires
        ascending(keys_of(rows)),
        total_of(rows, ext) + count <= u64::MAX,
    ensures
        ascending(keys_of(added(rows, ext, count))),
        total_of(added(rows, ext, count), ext) == total_of(rows, ext) + count,
        forall|other: Seq<char>|
            other != ext ==> #[trigger] total_of(added(rows, ext, count), other) == total_of(
                rows,
                other,
            ),
        grand_total(added(rows, ext, count)) == grand_total(rows) + count,
{
    let sum = (total_of(rows, ext) + count) as u64;
    lemma_put(rows, ext, sum);
    lemma_rank_parts(keys_of(rows), ext);
    let at = rank(keys_of(rows), ext);
    if has_key(rows, ext) {
        lemma_grand_total_update(rows, at, (ext, sum));
    } else {
        lemma_grand_total_insert(rows, at, (ext, sum));
    }
    assert forall|other: Seq<char>| other != ext implies #[trigger] total_of(
        added(rows, ext, count),
        other,
    ) == total_of(rows, other) by {
        assert(get(put(rows, ext, sum), other) == get(rows, other));
    }
}

/// Two increments give the same totals in either order.
pub proof fn lemma_added_commutes(
    rows: Seq<(Seq<char>, u64)>,
    first: Seq<char>,
    x: u64,
    second: Seq<char>,
    y: u64,
)
    requires
        ascending(keys_of(rows)),
        total_of(rows, first) + x <= u64::MAX,
        total_of(rows, second) + y <= u64::MAX,
        first == second ==> total_of(rows, first) + x + y <= u64::MAX,
    ensures
        added(added(rows, first, x), second, y) == added(added(rows, second, y), first, x),
{
    lemma_added(rows, first, x);
    lemma_added(rows, second, y);
    if first == second {
        let one = added(rows, first, x);
        let other = added(rows, first, y);
        let sum_one = (total_of(rows, first) + x) as u64;
        let sum_other = (total_of(rows, first) + y) as u64;
        let all = (total_of(rows, first) + x + y) as u64;
        lemma_put(rows, first, sum_one);
        lemma_put(rows, first, sum_other);
        lemma_put(one, first, all);
        lemma_put(other, first, all);
        lemma_put(rows, first, all);
        // both ways the rows hold the whole sum under the key and nothing else changes
        assert forall|ext: Seq<char>| get(put(one, first, all), ext) == get(
            put(rows, first, all),
            ext,
        ) by {
            if ext != first {
                assert(get(put(one, first, all), ext) == get(one, ext));
                assert(get(put(rows, first, sum_one), ext) == get(rows, ext));
                assert(get(put(rows, first, all), ext) == get(rows, ext));
            }
        }
        assert forall|ext: Seq<char>| get(put(other, first, all), ext) == get(
            put(rows, first, all),
            ext,
        ) by {
            if ext != first {
                assert(get(put(other, first, all), ext) == get(other, ext));
                assert(get(put(rows, first, sum_other), ext) == get(rows, ext));
                assert(get(put(rows, first, all), ext) == get(rows, ext));
            }
        }
        lemma_rows_determined(put(one, first, all), put(rows, first, all));
        lemma_rows_determined(put(other, first, all), put(rows, first, all));
    } else {
        let sum_x = (total_of(rows, first) + x) as u64;
        let sum_y = (total_of(rows, second) + y) as u64;
        lemma_put_commutes(rows, first, sum_x, second, sum_y);
    }
}

/// The rows after the increments `incs`, each an extension with a metric,
/// were added to `rows` in this order.
pub open spec fn added_all(rows: Seq<(Seq<char>, u64)>, incs: Seq<(Seq<char>, u64)>) -> Seq<
    (Seq<char>, u64),
>
    decreases incs.len(),
{
    if incs.len() == 0 {
        rows
    } else {
        added(added_all(rows, incs.drop_last()), incs.last().0, incs.last().1)
    }
}

/// The metrics that the increments `incs` have for `ext`, added up.
pub open spec fn sum_for(incs: Seq<(Seq<char>, u64)>, ext: Seq<char>) -> nat
    decreases incs.len(),
{
    if incs.len() == 0 {
        0
    } else {
        sum_for(incs.drop_last(), ext) + if incs.last().0 == ext {
            incs.last().1 as nat
        } else {
            0nat
        }
    }
}

/// Whether one of the increments `incs` is for `ext`.
pub open spec fn mentions(incs: Seq<(Seq<char>, u64)>, ext: Seq<char>) -> bool {
    exists|i: int| 0 <= i < incs.len() && (#[trigger] incs[i]).0 == ext
}

/// Whether the sum of the increments fits in 64 bits for every extension.
pub open spec fn sums_fit(incs: Seq<(Seq<char>, u64)>) -> bool {
    forall|ext: Seq<char>| #[trigger] sum_for(incs, ext) <= u64::MAX
}

/// The sum for an extension is that of the other increments and the metric of
/// the one taken out, where that one is for the extension.
pub proof fn lemma_sum_for_remove(incs: Seq<(Seq<char>, u64)>, at: int, ext: Seq<char>)
    requires
        0 <= at < incs.len(),
    ensures
        sum_for(incs, ext) == sum_for(incs.remove(at), ext) + if incs[at].0 == ext {
            incs[at].1 as nat
        } else {
            0nat
        },
    decreases incs.len(),
{
    if at == incs.len() - 1 {
        assert(incs.remove(at) =~= incs.drop_last());
    } else {
        lemma_sum_for_remove(incs.drop_last(), at, ext);
        assert(incs.remove(at).drop_last() =~= incs.drop_last().remove(at));
        assert(incs.remove(at).last() == incs.last());
    }
}

/// The sum for an extension does not depend on the order of the increments.
pub proof fn lemma_sum_for_whatever_the_order(
    one: Seq<(Seq<char>, u64)>,
    other: Seq<(Seq<char>, u64)>,
    ext: Seq<char>,
)
    requires
        one.to_multiset() == other.to_multiset(),
    ensures
        sum_for(one, ext) == sum_for(other, ext),
    decreases one.len(),
{
    broadcast use group_to_multiset_ensures;
    broadcast use group_multiset_axioms;

    if one.len() == 0 {
        assert(other.len() == 0) by {
            assert(other.to_multiset().len() == 0);
        }
    } else {
        let last = one.last();
        assert(one.to_multiset().count(last) > 0) by {
            assert(one[one.len() - 1] == last);
            assert(one.contains(last));
        }
        assert(other.contains(last));
        let at = choose|at: int| 0 <= at < other.len() && other[at] == last;
        assert(one.remove(one.len() - 1) =~= one.drop_last());
        assert(one.drop_last().to_multiset() =~= other.remove(at).to_multiset());
        lemma_sum_for_whatever_the_order(one.drop_last(), other.remove(at), ext);
        lemma_sum_for_remove(other, at, ext);
    }
}

/// Increments of which none is for an extension add up to nothing for it.
pub proof fn lemma_sum_for_unmentioned(incs: Seq<(Seq<char>, u64)>, ext: Seq<char>)
    requires
        !mentions(incs, ext),
    ensures
        sum_for(incs, ext) == 0,
    decreases incs.len(),
{
    if incs.len() > 0 {
        let front = incs.drop_last();
        assert(incs[incs.len() - 1].0 != ext);
        assert forall|i: int| 0 <= i < front.len() implies (#[trigger] front[i]).0 != ext by {
            assert(front[i] == incs[i]);
        }
        lemma_sum_for_unmentioned(front, ext);
    }
}

/// Where the sums of increments fit, so do those of the increments before
/// the last.
pub proof fn lemma_sums_fit_before(incs: Seq<(Seq<char>, u64)>)
    requires
        sums_fit(incs),
        incs.len() > 0,
    ensures
        sums_fit(incs.drop_last()),
{
    assert forall|ext: Seq<char>| #[trigger] sum_for(incs.drop_last(), ext) <= u64::MAX by {
        assert(sum_for(incs, ext) <= u64::MAX);
    }
}

/// After increments whose sums fit, an extension has a total exactly where
/// one of the increments was for it, and its total is the sum of these.
pub proof fn lemma_added_all(incs: Seq<(Seq<char>, u64)>)
    requires
        sums_fit(incs),
    ensures
        ascending(keys_of(added_all(Seq::empty(), incs))),
        forall|ext: Seq<char>|
            #[trigger] get(added_all(Seq::empty(), incs), ext) == if mentions(incs, ext) {
                Some(sum_for(incs, ext) as u64)
            } else {
                None
            },
    decreases incs.len(),
{
    let rows = added_all(Seq::empty(), incs);
    if incs.len() == 0 {
        assert forall|ext: Seq<char>| #[trigger] get(rows, ext) == None::<u64> by {}
        assert forall|ext: Seq<char>| !mentions(incs, ext) by {}
    } else {
        let front = incs.drop_last();
        let last = incs.last();
        let before = added_all(Seq::empty(), front);
        lemma_sums_fit_before(incs);
        lemma_added_all(front);
        assert(get(before, last.0) == if mentions(front, last.0) {
            Some(sum_for(front, last.0) as u64)
        } else {
            None
        });
        assert(sum_for(incs, last.0) <= u64::MAX);
        if !mentions(front, last.0) {
            lemma_sum_for_unmentioned(front, last.0);
        }
        assert(total_of(before, last.0) == sum_for(front, last.0));
        let sum = (total_of(before, last.0) + last.1) as u64;
        lemma_put(before, last.0, sum);
        assert forall|ext: Seq<char>| #[trigger] get(rows, ext) == if mentions(incs, ext) {
            Some(sum_for(incs, ext) as u64)
        } else {
            None
        } by {
            assert(sum_for(incs, ext) <= u64::MAX);
            assert(get(before, ext) == if mentions(front, ext) {
                Some(sum_for(front, ext) as u64)
            } else {
                None
            });
            if !mentions(front, ext) {
                lemma_sum_for_unmentioned(front, ext);
            }
            if ext == last.0 {
                assert(incs[incs.len() - 1].0 == ext);
            } else {
                assert(get(put(before, last.0, sum), ext) == get(before, ext));
                if mentions(front, ext) {
                    let i = choose|i: int| 0 <= i < front.len() && (#[trigger] front[i]).0 == ext;
                    assert(incs[i] == front[i]);
                }
                if mentions(incs, ext) {
                    let i = choose|i: int| 0 <= i < incs.len() && (#[trigger] incs[i]).0 == ext;
                    assert(front[i] == incs[i]);
                }
            }
        }
    }
}

/// Whether an extension is among the increments does not depend on their
/// order.
pub proof fn lemma_mentions_whatever_the_order(
    one: Seq<(Seq<char>, u64)>,
    other: Seq<(Seq<char>, u64)>,
    ext: Seq<char>,
)
    requires
        one.to_multiset() == other.to_multiset(),
        mentions(one, ext),
    ensures
        mentions(other, ext),
{
    broadcast use group_to_multiset_ensures;

    let i = choose|i: int| 0 <= i < one.len() && (#[trigger] one[i]).0 == ext;
    assert(one.contains(one[i]));
    assert(one.to_multiset().count(one[i]) > 0);
    assert(other.to_multiset().count(one[i]) > 0);
    assert(other.contains(one[i]));
    let j = choose|j: int| 0 <= j < other.len() && other[j] == one[i];
    assert(other[j].0 == ext);
}

/// The totals do not depend on the order in which the files came by: the
/// same increments in another order give the same totals.
pub proof fn lemma_totals_whatever_the_order(
    one: Seq<(Seq<char>, u64)>,
    other: Seq<(Seq<char>, u64)>,
)
    requires
        one.to_multiset() == other.to_multiset(),
        sums_fit(one),
    ensures
        added_all(Seq::empty(), one) == added_all(Seq::empty(), other),
{
    assert forall|ext: Seq<char>| #[trigger] sum_for(other, ext) <= u64::MAX by {
        lemma_sum_for_whatever_the_order(one, other, ext);
        assert(sum_for(one, ext) <= u64::MAX);
    }
    lemma_added_all(one);
    lemma_added_all(other);
    let a = added_all(Seq::empty(), one);
    let b = added_all(Seq::empty(), other);
    assert forall|ext: Seq<char>| get(a, ext) == get(b, ext) by {
        lemma_sum_for_whatever_the_order(one, other, ext);
        if mentions(one, ext) {
            lemma_mentions_whatever_the_order(one, other, ext);
        }
        if mentions(other, ext) {
            lemma_mentions_whatever_the_order(other, one, ext);
        }
    }
    lemma_rows_determined(a, b);
}

} // verus!
