//! Rows keyed by extension and kept in the order of their keys: what stands
//! for a map from extension to accumulator, walked in lexicographic order.

use crate::text::{
    lemma_text_lt_asymmetric, lemma_text_lt_connected, lemma_text_lt_irreflexive,
    lemma_text_lt_transitive, str_lt, text_lt,
};
use vstd::prelude::*;

verus! {

/// The keys of rows, in the rows' order.
pub open spec fn keys_of<T>(rows: Seq<(Seq<char>, T)>) -> Seq<Seq<char>> {
    rows.map_values(|row: (Seq<char>, T)| row.0)
}

/// Whether each key comes before all that follow it; no key then occurs twice.
pub open spec fn ascending(keys: Seq<Seq<char>>) -> bool {
    forall|i: int, j: int| 0 <= i < j < keys.len() ==> text_lt(keys[i], keys[j])
}

/// The number of keys that come before `ext`: the index at which `ext`
/// stands among ascending keys, or at which it would be added.
pub open spec fn rank(keys: Seq<Seq<char>>, ext: Seq<char>) -> int
    decreases keys.len(),
{
    if keys.len() == 0 {
        0
    } else {
        rank(keys.drop_last(), ext) + if text_lt(keys.last(), ext) {
            1int
        } else {
            0int
        }
    }
}

/// Whether one of the rows has the key `ext`.
pub open spec fn has_key<T>(rows: Seq<(Seq<char>, T)>, ext: Seq<char>) -> bool {
    let at = rank(keys_of(rows), ext);
    at < rows.len() && rows[at].0 == ext
}

/// What the row with the key `ext` holds, if there is one.
pub open spec fn get<T>(rows: Seq<(Seq<char>, T)>, ext: Seq<char>) -> Option<T> {
    if has_key(rows, ext) {
        Some(rows[rank(keys_of(rows), ext)].1)
    } else {
        None
    }
}

/// The rows with `value` under the key `ext`: in place of what that key held,
/// or as a new row where the order of the keys puts it.
pub open spec fn put<T>(rows: Seq<(Seq<char>, T)>, ext: Seq<char>, value: T) -> Seq<
    (Seq<char>, T),
> {
    let at = rank(keys_of(rows), ext);
    if has_key(rows, ext) {
        rows.update(at, (ext, value))
    } else {
        rows.insert(at, (ext, value))
    }
}

/// The rows made of `keys` and, at the same indices, `slots`.
pub open spec fn zip<T>(keys: Seq<Seq<char>>, slots: Seq<T>) -> Seq<(Seq<char>, T)> {
    Seq::new(keys.len(), |i: int| (keys[i], slots[i]))
}

/// Among ascending keys, those before `ext` stand in front: the index where
/// they end is the rank of `ext`.
pub proof fn lemma_rank_at_boundary(keys: Seq<Seq<char>>, ext: Seq<char>, at: int)
    requires
        0 <= at <= keys.len(),
        forall|j: int| 0 <= j < at ==> text_lt(#[trigger] keys[j], ext),
        forall|j: int| at <= j < keys.len() ==> !text_lt(#[trigger] keys[j], ext),
    ensures
        rank(keys, ext) == at,
    decreases keys.len(),
{
    if keys.len() > 0 {
        let front = keys.drop_last();
        if at == keys.len() {
            lemma_rank_at_boundary(front, ext, at - 1);
        } else {
            lemma_rank_at_boundary(front, ext, at);
        }
    }
}

/// The rank of `ext` among ascending keys parts those before it from the
/// others, and `ext` itself can stand at its rank only.
pub proof fn lemma_rank_parts(keys: Seq<Seq<char>>, ext: Seq<char>)
    requires
        ascending(keys),
    ensures
        0 <= rank(keys, ext) <= keys.len(),
        forall|j: int| 0 <= j < rank(keys, ext) ==> text_lt(#[trigger] keys[j], ext),
        forall|j: int| rank(keys, ext) <= j < keys.len() ==> !text_lt(#[trigger] keys[j], ext),
        forall|j: int| 0 <= j < keys.len() && #[trigger] keys[j] == ext ==> j == rank(keys, ext),
    decreases keys.len(),
{
    if keys.len() > 0 {
        let front = keys.drop_last();
        assert(ascending(front)) by {
            assert forall|i: int, j: int| 0 <= i < j < front.len() implies text_lt(
                front[i],
                front[j],
            ) by {
                assert(front[i] == keys[i] && front[j] == keys[j]);
            }
        }
        lemma_rank_parts(front, ext);
        let p = rank(front, ext);
        if text_lt(keys.last(), ext) {
            assert forall|j: int| 0 <= j < keys.len() implies text_lt(#[trigger] keys[j], ext) by {
                if j < keys.len() - 1 {
                    lemma_text_lt_transitive(keys[j], keys.last(), ext);
                }
            }
            assert forall|j: int| 0 <= j < front.len() implies text_lt(#[trigger] front[j], ext) by {
                assert(front[j] == keys[j]);
            }
            lemma_rank_at_boundary(front, ext, front.len() as int);
            assert forall|j: int| 0 <= j < keys.len() && #[trigger] keys[j] == ext implies j
                == rank(keys, ext) by {
                lemma_text_lt_irreflexive(ext);
            }
        } else {
            assert forall|j: int| 0 <= j < p implies text_lt(#[trigger] keys[j], ext) by {
                assert(keys[j] == front[j]);
            }
            assert forall|j: int| p <= j < keys.len() implies !text_lt(#[trigger] keys[j], ext) by {
                if j < front.len() {
                    assert(keys[j] == front[j]);
                }
            }
            assert forall|j: int| 0 <= j < keys.len() && #[trigger] keys[j] == ext implies j
                == p by {
                lemma_text_lt_irreflexive(ext);
                if j < p {
                    assert(text_lt(keys[j], ext));
                } else if j > p {
                    // keys[p] is not before ext, yet before keys[j], which is ext
                    assert(!text_lt(keys[p], ext));
                    assert(text_lt(keys[p], keys[j]));
                }
            }
        }
    }
}

/// Putting a value under a key keeps ascending rows ascending, leaves the
/// other keys with what they held, and holds the value under its key.
pub proof fn lemma_put<T>(rows: Seq<(Seq<char>, T)>, ext: Seq<char>, value: T)
    requires
        ascending(keys_of(rows)),
    ensures
        ascending(keys_of(put(rows, ext, value))),
        get(put(rows, ext, value), ext) == Some(value),
        forall|other: Seq<char>|
            other != ext ==> #[trigger] get(put(rows, ext, value), other) == get(rows, other),
        put(rows, ext, value).len() == rows.len() + if has_key(rows, ext) {
            0int
        } else {
            1int
        },
{
    let keys = keys_of(rows);
    let at = rank(keys, ext);
    let after = put(rows, ext, value);
    let keys_after = keys_of(after);
    lemma_rank_parts(keys, ext);
    assert(forall|j: int| 0 <= j < rows.len() ==> #[trigger] keys[j] == rows[j].0);
    if has_key(rows, ext) {
        assert(keys_after =~= keys);
    } else {
        assert(keys_after =~= keys.insert(at, ext));
        assert forall|i: int, j: int| 0 <= i < j < keys_after.len() implies text_lt(
            keys_after[i],
            keys_after[j],
        ) by {
            if j == at {
                assert(keys_after[i] == keys[i]);
            } else if i == at {
                assert(keys_after[j] == keys[j - 1]);
                assert(!text_lt(keys[j - 1], ext));
                if !text_lt(ext, keys[j - 1]) {
                    lemma_text_lt_connected(ext, keys[j - 1]);
                    assert(keys[j - 1] == ext);
                    assert(j - 1 == at);
                    assert(rows[at].0 == ext);
                }
            } else {
                let si = if i < at {
                    i
                } else {
                    i - 1
                };
                let sj = if j < at {
                    j
                } else {
                    j - 1
                };
                assert(keys_after[i] == keys[si]);
                assert(keys_after[j] == keys[sj]);
            }
        }
    }
    lemma_rank_parts(keys_after, ext);
    assert(keys_after[at] == ext);
    assert(rank(keys_after, ext) == at);
    assert forall|other: Seq<char>| other != ext implies #[trigger] get(after, other) == get(
        rows,
        other,
    ) by {
        lemma_rank_parts(keys, other);
        lemma_rank_parts(keys_after, other);
        let r = rank(keys, other);
        if has_key(rows, ext) {
            assert(forall|j: int| 0 <= j < keys.len() ==> #[trigger] keys_after[j] == keys[j]);
            lemma_rank_at_boundary(keys_after, other, r);
            if r < rows.len() && r != at {
                assert(after[r] == rows[r]);
            }
        } else if text_lt(ext, other) {
            // the new key stands before the rank of `other`, which moves up by one
            assert(at <= r) by {
                if r < at {
                    lemma_text_lt_transitive(keys[r], ext, other);
                }
            }
            assert forall|j: int| 0 <= j < r + 1 implies text_lt(#[trigger] keys_after[j], other) by {
                if j < at {
                    assert(keys_after[j] == keys[j]);
                } else if j > at {
                    assert(keys_after[j] == keys[j - 1]);
                }
            }
            assert forall|j: int| r + 1 <= j < keys_after.len() implies !text_lt(
                #[trigger] keys_after[j],
                other,
            ) by {
                assert(keys_after[j] == keys[j - 1]);
            }
            lemma_rank_at_boundary(keys_after, other, r + 1);
            if r < keys.len() {
                assert(after[r + 1] == rows[r]);
            }
        } else {
            // `other` comes before the new key: nothing up to its rank moves
            if !text_lt(other, ext) {
                lemma_text_lt_connected(ext, other);
            }
            assert(r <= at) by {
                if at < r {
                    lemma_text_lt_transitive(keys[at], other, ext);
                }
            }
            assert forall|j: int| 0 <= j < r implies text_lt(#[trigger] keys_after[j], other) by {
                assert(keys_after[j] == keys[j]);
            }
            assert forall|j: int| r <= j < keys_after.len() implies !text_lt(
                #[trigger] keys_after[j],
                other,
            ) by {
                if j < at {
                    assert(keys_after[j] == keys[j]);
                } else if j > at {
                    assert(keys_after[j] == keys[j - 1]);
                }
            }
            lemma_rank_at_boundary(keys_after, other, r);
            if r < at {
                assert(after[r] == rows[r]);
            } else if at < rows.len() {
                assert(after[r].0 == ext);
                if rows[at].0 == other {
                    assert(keys[at] == other);
                    assert(!text_lt(keys[at], ext));
                }
            }
        }
    }
}

/// Each row of rows with a value put under a key is that key with that
/// value, or a row that was there before.
pub proof fn lemma_put_rows<T>(rows: Seq<(Seq<char>, T)>, ext: Seq<char>, value: T)
    requires
        ascending(keys_of(rows)),
    ensures
        forall|i: int|
            0 <= i < put(rows, ext, value).len() ==> (#[trigger] put(rows, ext, value)[i]) == (
                ext,
                value,
            ) || rows.contains(put(rows, ext, value)[i]),
{
    lemma_rank_parts(keys_of(rows), ext);
    let at = rank(keys_of(rows), ext);
    let after = put(rows, ext, value);
    assert forall|i: int| 0 <= i < after.len() implies (#[trigger] after[i]) == (ext, value)
        || rows.contains(after[i]) by {
        if i != at {
            if has_key(rows, ext) || i < at {
                assert(after[i] == rows[i]);
            } else {
                assert(after[i] == rows[i - 1]);
            }
        }
    }
}

/// For ascending rows, a key holds a value exactly where one of the rows is
/// that key with that value.
pub proof fn lemma_get_is_row<T>(rows: Seq<(Seq<char>, T)>, at: int)
    requires
        ascending(keys_of(rows)),
        0 <= at < rows.len(),
    ensures
        rank(keys_of(rows), rows[at].0) == at,
        has_key(rows, rows[at].0),
        get(rows, rows[at].0) == Some(rows[at].1),
{
    let keys = keys_of(rows);
    assert(keys[at] == rows[at].0);
    lemma_rank_parts(keys, rows[at].0);
}

/// Ascending rows without their last row hold what they held before under
/// every key but the last.
pub proof fn lemma_get_drop_last<T>(rows: Seq<(Seq<char>, T)>, ext: Seq<char>)
    requires
        ascending(keys_of(rows)),
        rows.len() > 0,
    ensures
        ascending(keys_of(rows.drop_last())),
        get(rows.drop_last(), ext) == if ext == rows.last().0 {
            None
        } else {
            get(rows, ext)
        },
{
    let keys = keys_of(rows);
    let front = rows.drop_last();
    let front_keys = keys_of(front);
    assert(front_keys =~= keys.drop_last());
    assert forall|i: int, j: int| 0 <= i < j < front_keys.len() implies text_lt(
        front_keys[i],
        front_keys[j],
    ) by {
        assert(front_keys[i] == keys[i] && front_keys[j] == keys[j]);
    }
    lemma_rank_parts(keys, ext);
    lemma_rank_parts(front_keys, ext);
    let r = rank(keys, ext);
    let last = rows.len() - 1;
    assert(keys[last] == rows.last().0);
    if text_lt(keys.last(), ext) {
        // every key is before `ext`: it is nowhere
        lemma_text_lt_asymmetric(keys.last(), ext);
    } else {
        assert(rank(front_keys, ext) == r);
        if r < last {
            assert(front[r] == rows[r]);
            if rows[r].0 == ext && ext == rows.last().0 {
                assert(keys[r] == ext);
                assert(text_lt(keys[r], keys[last]));
                lemma_text_lt_irreflexive(ext);
            }
        } else if r == last {
            if rows[r].0 != ext {
            }
        }
    }
}

/// Ascending rows are determined by what they hold under each key.
pub proof fn lemma_rows_determined<T>(a: Seq<(Seq<char>, T)>, b: Seq<(Seq<char>, T)>)
    requires
        ascending(keys_of(a)),
        ascending(keys_of(b)),
        forall|ext: Seq<char>| get(a, ext) == get(b, ext),
    ensures
        a == b,
    decreases a.len(),
{
    if a.len() == 0 {
        if b.len() > 0 {
            lemma_get_is_row(b, 0);
            assert(get(a, b[0].0) == get(b, b[0].0));
        }
        assert(a =~= b);
    } else if b.len() == 0 {
        lemma_get_is_row(a, 0);
        assert(get(a, a[0].0) == get(b, a[0].0));
    } else {
        let ka = a.last().0;
        let kb = b.last().0;
        let keys_a = keys_of(a);
        let keys_b = keys_of(b);
        lemma_get_is_row(a, a.len() - 1);
        lemma_get_is_row(b, b.len() - 1);
        assert(get(a, ka) == get(b, ka));
        assert(get(a, kb) == get(b, kb));
        // each last key stands somewhere in the other rows, so neither is beyond the other
        lemma_rank_parts(keys_a, kb);
        lemma_rank_parts(keys_b, ka);
        let ia = rank(keys_a, kb);
        let ib = rank(keys_b, ka);
        assert(keys_a[ia] == kb);
        assert(keys_b[ib] == ka);
        assert(keys_a[a.len() - 1] == ka);
        assert(keys_b[b.len() - 1] == kb);
        if ia < a.len() - 1 {
            assert(text_lt(kb, ka));
            if ib < b.len() - 1 {
                assert(text_lt(ka, kb));
                lemma_text_lt_asymmetric(ka, kb);
            } else {
                lemma_text_lt_irreflexive(ka);
            }
        }
        assert(ka == kb);
        assert(a.last() == b.last());
        assert forall|ext: Seq<char>| get(a.drop_last(), ext) == get(b.drop_last(), ext) by {
            lemma_get_drop_last(a, ext);
            lemma_get_drop_last(b, ext);
        }
        lemma_get_drop_last(a, ka);
        lemma_get_drop_last(b, ka);
        lemma_rows_determined(a.drop_last(), b.drop_last());
        assert(a =~= a.drop_last().push(a.last()));
        assert(b =~= b.drop_last().push(b.last()));
    }
}

/// Values put under two different keys can be put in either order.
pub proof fn lemma_put_commutes<T>(
    rows: Seq<(Seq<char>, T)>,
    first: Seq<char>,
    x: T,
    second: Seq<char>,
    y: T,
)
    requires
        ascending(keys_of(rows)),
        first != second,
    ensures
        put(put(rows, first, x), second, y) == put(put(rows, second, y), first, x),
{
    let one = put(rows, first, x);
    let other = put(rows, second, y);
    lemma_put(rows, first, x);
    lemma_put(rows, second, y);
    lemma_put(one, second, y);
    lemma_put(other, first, x);
    lemma_rows_determined(put(one, second, y), put(other, first, x));
}

/// Accumulators by extension, walked in the lexicographic order of the
/// extensions. An extension has at most one accumulator; it gets one, empty,
/// the first time it is asked for, and keeps it.
pub struct PerExtension<D> {
    keys: Vec<String>,
    slots: Vec<D>,
}

impl<D> PerExtension<D> {
    /// The extensions and their accumulators, in the order of the extensions.
    pub closed spec fn rows(&self) -> Seq<(Seq<char>, D)> {
        zip(self.keys@.map_values(|k: String| k@), self.slots@)
    }

    /// Whether the table is as it should be: one accumulator per extension,
    /// the extensions ascending.
    pub closed spec fn wf(&self) -> bool {
        &&& self.keys@.len() == self.slots@.len()
        &&& ascending(keys_of(self.rows()))
    }

    /// In a table that is as it should be the extensions are ascending.
    pub proof fn lemma_wf(&self)
        requires
            self.wf(),
        ensures
            ascending(keys_of(self.rows())),
    {
    }

    /// A table without extensions.
    pub fn new() -> (table: Self)
        ensures
            table.wf(),
            table.rows() == Seq::<(Seq<char>, D)>::empty(),
    {
        let table = PerExtension { keys: Vec::new(), slots: Vec::new() };
        assert(table.rows() =~= Seq::<(Seq<char>, D)>::empty());
        table
    }

    /// Whether no extension has been seen.
    pub fn is_empty(&self) -> (b: bool)
        ensures
            b == (self.rows().len() == 0),
    {
        self.keys.is_empty()
    }

    /// The number of extensions seen.
    pub fn len(&self) -> (n: usize)
        ensures
            n == self.rows().len(),
    {
        self.keys.len()
    }

    /// The extension of the row at `index`.
    pub fn key_at(&self, index: usize) -> (key: &str)
        requires
            self.wf(),
            index < self.rows().len(),
        ensures
            key@ == self.rows()[index as int].0,
    {
        self.keys[index].as_str()
    }

    /// The accumulator of the row at `index`.
    pub fn slot_at(&self, index: usize) -> (slot: &D)
        requires
            self.wf(),
            index < self.rows().len(),
        ensures
            *slot == self.rows()[index as int].1,
    {
        &self.slots[index]
    }

    /// Where `ext` stands among the extensions, and whether it is there.
    pub fn find(&self, ext: &str) -> (found: (usize, bool))
        requires
            self.wf(),
        ensures
            found.0 == rank(keys_of(self.rows()), ext@),
            found.1 == has_key(self.rows(), ext@),
            found.0 <= self.rows().len(),
    {
        let ghost keys = keys_of(self.rows());
        assert(forall|j: int| 0 <= j < keys.len() ==> #[trigger] keys[j] == self.keys@[j]@);
        let mut lo: usize = 0;
        let mut hi: usize = self.keys.len();
        while lo < hi
            invariant
                lo <= hi <= self.keys@.len(),
                keys.len() == self.keys@.len(),
                ascending(keys),
                forall|j: int| 0 <= j < keys.len() ==> #[trigger] keys[j] == self.keys@[j]@,
                forall|j: int| 0 <= j < lo ==> text_lt(#[trigger] keys[j], ext@),
                forall|j: int| hi <= j < keys.len() ==> !text_lt(#[trigger] keys[j], ext@),
            decreases hi - lo,
        {
            let mid = lo + (hi - lo) / 2;
            if str_lt(self.keys[mid].as_str(), ext) {
                proof {
                    assert forall|j: int| 0 <= j < mid + 1 implies text_lt(
                        #[trigger] keys[j],
                        ext@,
                    ) by {
                        if j < mid {
                            lemma_text_lt_transitive(keys[j], keys[mid as int], ext@);
                        }
                    }
                }
                lo = mid + 1;
            } else {
                proof {
                    assert forall|j: int| mid <= j < keys.len() implies !text_lt(
                        #[trigger] keys[j],
                        ext@,
                    ) by {
                        if j > mid && text_lt(keys[j], ext@) {
                            lemma_text_lt_transitive(keys[mid as int], keys[j], ext@);
                        }
                    }
                }
                hi = mid;
            }
        }
        let found = lo < self.keys.len() && !str_lt(ext, self.keys[lo].as_str());
        proof {
            lemma_rank_at_boundary(keys, ext@, lo as int);
            if lo < keys.len() {
                assert(self.rows()[lo as int].0 == keys[lo as int]);
                if found {
                    lemma_text_lt_connected(ext@, keys[lo as int]);
                } else {
                    lemma_text_lt_asymmetric(ext@, keys[lo as int]);
                }
            }
        }
        (lo, found)
    }
}

impl<D> Default for PerExtension<D> {
    /// A table without extensions.
    fn default() -> (table: Self)
        ensures
            table.wf(),
            table.rows() == Seq::<(Seq<char>, D)>::empty(),
    {
        PerExtension::new()
    }
}

impl<D: Default> PerExtension<D> {
    /// The accumulator of `ext`, to be changed by the caller; a new, default
    /// one where `ext` had none.
    pub fn increment(&mut self, ext: String) -> (slot: &mut D)
        requires
            old(self).wf(),
        ensures
            final(self).wf(),
            final(self).rows() == put(old(self).rows(), ext@, *final(slot)),
            match get(old(self).rows(), ext@) {
                Some(held) => *slot == held,
                None => D::default.ensures((), *slot),
            },
    {
        let ghost rows = self.rows();
        let ghost key = ext@;
        let (at, found) = self.find(ext.as_str());
        if !found {
            self.keys.insert(at, ext);
            self.slots.insert(at, D::default());
        }
        proof {
            let keys_now = self.keys@.map_values(|k: String| k@);
            let slots_now = self.slots@;
            lemma_rank_parts(keys_of(rows), key);
            assert forall|d: D| #[trigger]
                zip(keys_now, slots_now.update(at as int, d)) == put(rows, key, d) && ascending(
                    keys_of(zip(keys_now, slots_now.update(at as int, d))),
                ) by {
                lemma_put(rows, key, d);
                let z = zip(keys_now, slots_now.update(at as int, d));
                if found {
                    assert(z =~= rows.update(at as int, (key, d)));
                } else {
                    assert(z =~= rows.insert(at as int, (key, d)));
                }
            }
        }
        &mut self.slots[at]
    }
}

} // verus!
