//! Sized items and the two orders they are kept in: largest first with the
//! larger text first among equal sizes (the order of retention), and largest
//! first with the smaller text first among equal sizes (the order of display).

use crate::text::{
    lemma_text_lt_asymmetric, lemma_text_lt_connected, lemma_text_lt_irreflexive,
    lemma_text_lt_transitive, str_lt, text_lt,
};
use vstd::multiset::*;
use vstd::prelude::*;
use vstd::relations::*;
use vstd::seq_lib::*;

verus! {

/// What an item is in contracts: its size and its text.
pub type Item = (u64, Seq<char>);

/// A text together with the size it is ranked by.
pub struct WithSize {
    pub size: u64,
    pub value: String,
}

impl View for WithSize {
    type V = Item;

    open spec fn view(&self) -> Item {
        (self.size, self.value@)
    }
}

impl WithSize {
    /// The text `value` with the size `size`.
    pub fn new(size: u64, value: String) -> (w: WithSize)
        ensures
            w@ == (size, value@),
    {
        WithSize { size, value }
    }
}

/// The items that a sequence of sized texts stands for.
pub open spec fn items_of(s: Seq<WithSize>) -> Seq<Item> {
    s.map_values(|w: WithSize| w@)
}

/// Whether `a` comes strictly before `b`: it does if it is larger; of two
/// items of one size the one with the smaller text comes first where
/// `text_up` holds, the one with the larger text where it does not.
pub open spec fn precedes(a: Item, b: Item, text_up: bool) -> bool {
    a.0 > b.0 || (a.0 == b.0 && if text_up {
        text_lt(a.1, b.1)
    } else {
        text_lt(b.1, a.1)
    })
}

/// Whether no item of `s` stands behind one that it precedes.
pub open spec fn arranged(s: Seq<Item>, text_up: bool) -> bool {
    forall|i: int, j: int| 0 <= i < j < s.len() ==> !precedes(s[j], s[i], text_up)
}

/// The number of items of `s` that `e` does not precede: where `e` goes when
/// it is added to an arranged `s`.
pub open spec fn place(s: Seq<Item>, e: Item, text_up: bool) -> int
    decreases s.len(),
{
    if s.len() == 0 {
        0
    } else {
        place(s.drop_last(), e, text_up) + if precedes(e, s.last(), text_up) {
            0int
        } else {
            1int
        }
    }
}

/// `s` with `e` added in its place.
pub open spec fn with_item(s: Seq<Item>, e: Item, text_up: bool) -> Seq<Item> {
    s.insert(place(s, e, text_up), e)
}

/// Whether `s` holds exactly the items `m`, arranged.
pub open spec fn is_arrangement(s: Seq<Item>, m: Multiset<Item>, text_up: bool) -> bool {
    arranged(s, text_up) && s.to_multiset() == m
}

/// The items `m` as the one sequence in which they are arranged.
pub open spec fn arrangement(m: Multiset<Item>, text_up: bool) -> Seq<Item> {
    choose|s: Seq<Item>| is_arrangement(s, m, text_up)
}

/// The order of display: larger sizes first, equal sizes by ascending text.
pub open spec fn display_order(m: Multiset<Item>) -> Seq<Item> {
    arrangement(m, true)
}

/// The order of retention: the largest item by size and then text first.
pub open spec fn largest_first(m: Multiset<Item>) -> Seq<Item> {
    arrangement(m, false)
}

/// No item precedes itself.
pub proof fn lemma_precedes_irreflexive(a: Item, text_up: bool)
    ensures
        !precedes(a, a, text_up),
{
    lemma_text_lt_irreflexive(a.1);
}

/// Of two items at most one precedes the other.
pub proof fn lemma_precedes_asymmetric(a: Item, b: Item, text_up: bool)
    requires
        precedes(a, b, text_up),
    ensures
        !precedes(b, a, text_up),
{
    if a.0 == b.0 {
        if text_up {
            lemma_text_lt_asymmetric(a.1, b.1);
        } else {
            lemma_text_lt_asymmetric(b.1, a.1);
        }
    }
}

/// What precedes an item precedes all that this one precedes.
pub proof fn lemma_precedes_transitive(a: Item, b: Item, c: Item, text_up: bool)
    requires
        precedes(a, b, text_up),
        precedes(b, c, text_up),
    ensures
        precedes(a, c, text_up),
{
    if a.0 == b.0 && b.0 == c.0 {
        if text_up {
            lemma_text_lt_transitive(a.1, b.1, c.1);
        } else {
            lemma_text_lt_transitive(c.1, b.1, a.1);
        }
    }
}

/// Two items of which neither precedes the other are the same item.
pub proof fn lemma_precedes_connected(a: Item, b: Item, text_up: bool)
    requires
        !precedes(a, b, text_up),
        !precedes(b, a, text_up),
    ensures
        a == b,
{
    lemma_text_lt_connected(a.1, b.1);
}

/// Where `a` does not precede `b` and `b` does not precede `c`, `a` does not
/// precede `c`.
pub proof fn lemma_not_precedes_transitive(a: Item, b: Item, c: Item, text_up: bool)
    requires
        !precedes(b, a, text_up),
        !precedes(c, b, text_up),
    ensures
        !precedes(c, a, text_up),
{
    if precedes(c, a, text_up) {
        if precedes(a, b, text_up) {
            lemma_precedes_transitive(c, a, b, text_up);
        } else {
            lemma_precedes_connected(a, b, text_up);
        }
    }
}

/// In an arranged sequence the items that `e` does not precede stand in
/// front: the index where they end is `e`'s place.
pub proof fn lemma_place_at_boundary(s: Seq<Item>, e: Item, text_up: bool, at: int)
    requires
        0 <= at <= s.len(),
        forall|j: int| 0 <= j < at ==> !precedes(e, #[trigger] s[j], text_up),
        forall|j: int| at <= j < s.len() ==> precedes(e, #[trigger] s[j], text_up),
    ensures
        place(s, e, text_up) == at,
    decreases s.len(),
{
    if s.len() > 0 {
        let front = s.drop_last();
        if at == s.len() {
            lemma_place_at_boundary(front, e, text_up, at - 1);
        } else {
            lemma_place_at_boundary(front, e, text_up, at);
        }
    }
}

/// An item's place lies within the sequence, and in an arranged one it parts
/// the items that the new one does not precede from those that it precedes.
pub proof fn lemma_place_parts(s: Seq<Item>, e: Item, text_up: bool)
    requires
        arranged(s, text_up),
    ensures
        0 <= place(s, e, text_up) <= s.len(),
        forall|j: int| 0 <= j < place(s, e, text_up) ==> !precedes(e, #[trigger] s[j], text_up),
        forall|j: int|
            place(s, e, text_up) <= j < s.len() ==> precedes(e, #[trigger] s[j], text_up),
    decreases s.len(),
{
    if s.len() > 0 {
        let front = s.drop_last();
        assert(arranged(front, text_up)) by {
            assert forall|i: int, j: int| 0 <= i < j < front.len() implies !precedes(
                front[j],
                front[i],
                text_up,
            ) by {
                assert(front[i] == s[i] && front[j] == s[j]);
            }
        }
        lemma_place_parts(front, e, text_up);
        let p = place(front, e, text_up);
        if precedes(e, s.last(), text_up) {
            assert forall|j: int| 0 <= j < p implies !precedes(e, #[trigger] s[j], text_up) by {
                assert(s[j] == front[j]);
            }
            assert forall|j: int| p <= j < s.len() implies precedes(e, #[trigger] s[j], text_up) by {
                if j < front.len() {
                    assert(s[j] == front[j]);
                }
            }
        } else {
            assert forall|j: int| 0 <= j < s.len() implies !precedes(
                e,
                #[trigger] s[j],
                text_up,
            ) by {
                if j < s.len() - 1 && precedes(e, s[j], text_up) {
                    assert(!precedes(s.last(), s[j], text_up));
                    if precedes(s[j], s.last(), text_up) {
                        lemma_precedes_transitive(e, s[j], s.last(), text_up);
                    } else {
                        lemma_precedes_connected(s[j], s.last(), text_up);
                    }
                }
            }
            assert forall|j: int| 0 <= j < front.len() implies !precedes(
                e,
                #[trigger] front[j],
                text_up,
            ) by {
                assert(front[j] == s[j]);
            }
            lemma_place_at_boundary(front, e, text_up, front.len() as int);
        }
    }
}

/// Adding an item in its place keeps a sequence arranged, and adds just that
/// item to what it holds.
pub proof fn lemma_with_item(s: Seq<Item>, e: Item, text_up: bool)
    requires
        arranged(s, text_up),
    ensures
        arranged(with_item(s, e, text_up), text_up),
        with_item(s, e, text_up).to_multiset() == s.to_multiset().insert(e),
        with_item(s, e, text_up).len() == s.len() + 1,
{
    lemma_place_parts(s, e, text_up);
    let p = place(s, e, text_up);
    let t = with_item(s, e, text_up);
    to_multiset_insert(s, p, e);
    assert forall|i: int, j: int| 0 <= i < j < t.len() implies !precedes(t[j], t[i], text_up) by {
        if j == p {
            // t[i] is an item that e does not precede... and e must not precede it
            assert(t[i] == s[i]);
        } else if i == p {
            assert(t[j] == s[j - 1]);
            lemma_precedes_asymmetric(e, s[j - 1], text_up);
        } else {
            let si = if i < p {
                i
            } else {
                i - 1
            };
            let sj = if j < p {
                j
            } else {
                j - 1
            };
            assert(t[i] == s[si]);
            assert(t[j] == s[sj]);
        }
    }
}

/// There is one arrangement of given items only.
pub proof fn lemma_arrangement_unique(s: Seq<Item>, t: Seq<Item>, text_up: bool)
    requires
        arranged(s, text_up),
        arranged(t, text_up),
        s.to_multiset() == t.to_multiset(),
    ensures
        s == t,
{
    let leq = |a: Item, b: Item| !precedes(b, a, text_up);
    assert(reflexive(leq)) by {
        assert forall|x: Item| #[trigger] leq(x, x) by {
            lemma_precedes_irreflexive(x, text_up);
        }
    }
    assert(antisymmetric(leq)) by {
        assert forall|x: Item, y: Item| #[trigger] leq(x, y) && #[trigger] leq(y, x) implies x
            == y by {
            lemma_precedes_connected(x, y, text_up);
        }
    }
    assert(transitive(leq)) by {
        assert forall|x: Item, y: Item, z: Item| #[trigger]
            leq(x, y) && #[trigger] leq(y, z) implies leq(x, z) by {
            lemma_not_precedes_transitive(x, y, z, text_up);
        }
    }
    assert(strongly_connected(leq)) by {
        assert forall|x: Item, y: Item| #[trigger] leq(x, y) || #[trigger] leq(y, x) by {
            if precedes(y, x, text_up) {
                lemma_precedes_asymmetric(y, x, text_up);
            }
        }
    }
    assert(sorted_by(s, leq));
    assert(sorted_by(t, leq));
    lemma_sorted_unique(s, t, leq);
}

/// An arranged sequence is the arrangement of the items it holds.
pub proof fn lemma_is_the_arrangement(s: Seq<Item>, text_up: bool)
    requires
        arranged(s, text_up),
    ensures
        arrangement(s.to_multiset(), text_up) == s,
{
    let m = s.to_multiset();
    assert(is_arrangement(s, m, text_up));
    lemma_arrangement_unique(arrangement(m, text_up), s, text_up);
}

/// Whatever items there are, they have an arrangement.
pub proof fn lemma_arrangement_exists(items: Seq<Item>, text_up: bool)
    ensures
        is_arrangement(arrangement(items.to_multiset(), text_up), items.to_multiset(), text_up),
    decreases items.len(),
{
    broadcast use group_to_multiset_ensures;

    if items.len() == 0 {
        assert(is_arrangement(items, items.to_multiset(), text_up));
    } else {
        let front = items.drop_last();
        lemma_arrangement_exists(front, text_up);
        let a = arrangement(front.to_multiset(), text_up);
        lemma_with_item(a, items.last(), text_up);
        assert(front.push(items.last()) =~= items);
        assert(is_arrangement(
            with_item(a, items.last(), text_up),
            items.to_multiset(),
            text_up,
        ));
    }
}

/// The first `limit` items of `s`, or all of them where it has no more.
pub open spec fn first_of(s: Seq<Item>, limit: nat) -> Seq<Item> {
    if s.len() <= limit {
        s
    } else {
        s.take(limit as int)
    }
}

/// What is retained of `held` and the new item `e` where at most `limit`
/// items are kept, the largest first: the new item takes its place, and
/// what then stands behind the limit, the smallest, is let go.
pub open spec fn kept(held: Seq<Item>, e: Item, limit: nat) -> Seq<Item> {
    first_of(with_item(held, e, false), limit)
}

/// What is retained after the items `entries` came in, in this order, where
/// at most `limit` items are kept.
pub open spec fn kept_of_all(entries: Seq<Item>, limit: nat) -> Seq<Item>
    decreases entries.len(),
{
    if entries.len() == 0 {
        Seq::empty()
    } else {
        kept(kept_of_all(entries.drop_last(), limit), entries.last(), limit)
    }
}

/// The front of an arranged sequence is arranged.
pub proof fn lemma_first_of_arranged(s: Seq<Item>, limit: nat, text_up: bool)
    requires
        arranged(s, text_up),
    ensures
        arranged(first_of(s, limit), text_up),
        first_of(s, limit).len() <= limit,
        first_of(s, limit).len() <= s.len(),
{
    let f = first_of(s, limit);
    assert forall|i: int, j: int| 0 <= i < j < f.len() implies !precedes(f[j], f[i], text_up) by {
        assert(f[i] == s[i] && f[j] == s[j]);
    }
}

/// What was let go before makes no difference to what is kept: keeping the
/// first items of the whole and then adding one gives what adding it to the
/// whole and keeping the first items gives.
pub proof fn lemma_kept_of_front(all: Seq<Item>, e: Item, limit: nat)
    requires
        arranged(all, false),
    ensures
        kept(first_of(all, limit), e, limit) == first_of(with_item(all, e, false), limit),
{
    let front = first_of(all, limit);
    lemma_first_of_arranged(all, limit, false);
    lemma_place_parts(all, e, false);
    lemma_place_parts(front, e, false);
    let p = place(all, e, false);
    if all.len() > limit {
        if p < limit {
            assert forall|j: int| 0 <= j < p implies !precedes(e, #[trigger] front[j], false) by {
                assert(front[j] == all[j]);
            }
            assert forall|j: int| p <= j < front.len() implies precedes(
                e,
                #[trigger] front[j],
                false,
            ) by {
                assert(front[j] == all[j]);
            }
            lemma_place_at_boundary(front, e, false, p);
        } else {
            assert forall|j: int| 0 <= j < front.len() implies !precedes(
                e,
                #[trigger] front[j],
                false,
            ) by {
                assert(front[j] == all[j]);
            }
            lemma_place_at_boundary(front, e, false, front.len() as int);
        }
        assert(kept(front, e, limit) =~= first_of(with_item(all, e, false), limit));
    }
}

/// Whatever the order in which items came in, what is retained is the first
/// `limit` of all of them arranged with the largest first: the `limit`
/// largest by size and then text, or all where there are no more.
pub proof fn lemma_keeps_the_largest(entries: Seq<Item>, limit: nat)
    ensures
        kept_of_all(entries, limit) == first_of(largest_first(entries.to_multiset()), limit),
        arranged(kept_of_all(entries, limit), false),
        kept_of_all(entries, limit).len() <= limit,
    decreases entries.len(),
{
    broadcast use group_to_multiset_ensures;

    lemma_arrangement_exists(entries, false);
    let whole = largest_first(entries.to_multiset());
    lemma_first_of_arranged(whole, limit, false);
    if entries.len() == 0 {
        assert(whole.len() == 0) by {
            assert(whole.to_multiset().len() == 0);
        }
        assert(kept_of_all(entries, limit) =~= first_of(whole, limit));
    } else {
        let before = entries.drop_last();
        let e = entries.last();
        lemma_keeps_the_largest(before, limit);
        lemma_arrangement_exists(before, false);
        let all_before = largest_first(before.to_multiset());
        lemma_kept_of_front(all_before, e, limit);
        lemma_with_item(all_before, e, false);
        assert(before.push(e) =~= entries);
        lemma_is_the_arrangement(with_item(all_before, e, false), false);
    }
}

/// What is retained does not depend on the order in which the items came in.
pub proof fn lemma_kept_whatever_the_order(one: Seq<Item>, other: Seq<Item>, limit: nat)
    requires
        one.to_multiset() == other.to_multiset(),
    ensures
        kept_of_all(one, limit) == kept_of_all(other, limit),
{
    lemma_keeps_the_largest(one, limit);
    lemma_keeps_the_largest(other, limit);
}

/// Whether `a` comes strictly before `b` (see [`precedes`]).
pub fn comes_before(a: &WithSize, b: &WithSize, text_up: bool) -> (r: bool)
    ensures
        r == precedes(a@, b@, text_up),
{
    if a.size != b.size {
        a.size > b.size
    } else if text_up {
        str_lt(a.value.as_str(), b.value.as_str())
    } else {
        str_lt(b.value.as_str(), a.value.as_str())
    }
}

/// Adds `w` to the arranged `v`, in its place.
pub fn insert_arranged(v: &mut Vec<WithSize>, w: WithSize, text_up: bool)
    requires
        arranged(items_of(old(v)@), text_up),
    ensures
        items_of(final(v)@) == with_item(items_of(old(v)@), w@, text_up),
        arranged(items_of(final(v)@), text_up),
{
    let ghost before = items_of(v@);
    let mut at: usize = v.len();
    while at > 0 && comes_before(&w, &v[at - 1], text_up)
        invariant
            at <= v@.len(),
            v@ == old(v)@,
            forall|j: int| at <= j < v@.len() ==> precedes(w@, #[trigger] before[j], text_up),
            before == items_of(v@),
        decreases at,
    {
        at -= 1;
    }
    proof {
        assert forall|j: int| 0 <= j < at implies !precedes(w@, #[trigger] before[j], text_up) by {
            // before[at - 1] is not behind w, and nothing in front of it is behind it
            let last = before[at - 1];
            assert(!precedes(w@, last, text_up));
            if j < at - 1 && precedes(w@, before[j], text_up) {
                assert(!precedes(last, before[j], text_up));
                if precedes(before[j], last, text_up) {
                    lemma_precedes_transitive(w@, before[j], last, text_up);
                } else {
                    lemma_precedes_connected(before[j], last, text_up);
                }
            }
        }
        lemma_place_at_boundary(before, w@, text_up, at as int);
        lemma_with_item(before, w@, text_up);
    }
    let ghost item = w@;
    v.insert(at, w);
    assert(items_of(v@) =~= before.insert(at as int, item));
}

/// The items of `items`, arranged.
pub fn arrange(items: Vec<WithSize>, text_up: bool) -> (sorted: Vec<WithSize>)
    ensures
        items_of(sorted@) == arrangement(items_of(items@).to_multiset(), text_up),
        is_arrangement(items_of(sorted@), items_of(items@).to_multiset(), text_up),
{
    broadcast use group_to_multiset_ensures;

    let ghost all = items_of(items@);
    let mut rest = items;
    let mut sorted: Vec<WithSize> = Vec::new();
    assert(items_of(sorted@) =~= Seq::<Item>::empty());
    assert(items_of(sorted@).to_multiset().add(all.to_multiset()) =~= all.to_multiset());
    while rest.len() > 0
        invariant
            arranged(items_of(sorted@), text_up),
            items_of(sorted@).to_multiset().add(items_of(rest@).to_multiset())
                == all.to_multiset(),
        decreases rest@.len(),
    {
        let ghost placed = items_of(sorted@);
        let ghost left = items_of(rest@);
        let w = rest.pop().unwrap();
        proof {
            assert(items_of(rest@) =~= left.drop_last());
            assert(left.drop_last().push(w@) =~= left);
            lemma_with_item(placed, w@, text_up);
            to_multiset_build(left.drop_last(), w@);
            assert(placed.to_multiset().insert(w@).add(left.drop_last().to_multiset())
                =~= placed.to_multiset().add(left.to_multiset())) by {
                broadcast use group_multiset_axioms;

            }
        }
        insert_arranged(&mut sorted, w, text_up);
    }
    proof {
        assert(items_of(rest@) =~= Seq::<Item>::empty());
        assert(items_of(sorted@).to_multiset().add(Seq::<Item>::empty().to_multiset())
            =~= items_of(sorted@).to_multiset());
        lemma_is_the_arrangement(items_of(sorted@), text_up);
    }
    sorted
}

} // verus!
