//! The collectors: what is counted per extension while a tree is scanned, and
//! the report that is made of it when the scan is over.

use crate::keyed::{
    ascending, get, has_key, keys_of, lemma_get_is_row, lemma_rank_parts, put, rank,
    PerExtension,
};
use crate::ranking::{
    arrange, arranged, display_order, insert_arranged, items_of, kept, lemma_first_of_arranged,
    lemma_with_item, with_item, Item, WithSize,
};
use crate::report::{
    entry_line, group_report, largest_report, line_of_entry, line_of_total, lines_of,
    total_line, totals_as_items, totals_report, widest,
};
use crate::totals::{added, total_of};
use vstd::prelude::*;

verus! {

/// What is counted per extension during a scan. A collector is made empty,
/// takes one `increment` per file, and is used up by `print_counts`.
pub trait Collector: View + Sized {
    /// Whether the collector is in a state that its operations keep up.
    spec fn wf(&self) -> bool;

    /// Whether a file with this extension and this metric can be taken in:
    /// whether what is counted for the extension still fits.
    spec fn accepts(state: Self::V, ext: Seq<char>, count: u64) -> bool;

    /// The state after a file was taken in.
    spec fn incremented(state: Self::V, ext: Seq<char>, path: Seq<char>, count: u64) -> Self::V;

    /// The lines of the report on a state.
    spec fn report(state: Self::V, human_readable_base: Option<u64>) -> Seq<Seq<char>>;

    /// Whether a file with the extension `ext` and the metric `count` can be
    /// taken in.
    fn can_increment(&self, ext: &str, count: u64) -> (ok: bool)
        requires
            self.wf(),
        ensures
            ok == Self::accepts(self@, ext@, count),
    ;

    /// Takes in the file at `path`, which has the extension `ext` and the
    /// metric `count`.
    fn increment(&mut self, ext: String, path: &str, count: u64)
        requires
            old(self).wf(),
            Self::accepts(old(self)@, ext@, count),
        ensures
            final(self).wf(),
            final(self)@ == Self::incremented(old(self)@, ext@, path@, count),
    ;

    /// The lines of the report, in the order in which they are to be printed.
    /// With a base, numbers are scaled by it for reading; it is not zero.
    fn print_counts(self, human_readable_base: Option<u64>) -> (lines: Vec<String>)
        requires
            self.wf(),
            human_readable_base matches Some(b) ==> b > 0,
        ensures
            lines_of(lines@) == Self::report(self@, human_readable_base),
    ;
}

/// The collector of sums: per extension, the total of the metrics of its
/// files. An extension has a total from its first file on.
pub struct PerExtensionCount {
    count: PerExtension<u64>,
}

impl View for PerExtensionCount {
    type V = Seq<(Seq<char>, u64)>;

    /// The extensions seen, ascending, each with its total.
    closed spec fn view(&self) -> Seq<(Seq<char>, u64)> {
        self.count.rows()
    }
}

impl PerExtensionCount {
    /// A collector that has seen no file.
    pub fn new() -> (collector: Self)
        ensures
            collector.wf(),
            collector@ == Seq::<(Seq<char>, u64)>::empty(),
    {
        PerExtensionCount { count: PerExtension::new() }
    }

    /// The extensions of a well-formed collector are ascending.
    pub proof fn lemma_ascending(&self)
        requires
            self.wf(),
        ensures
            ascending(keys_of(self@)),
    {
        self.count.lemma_wf();
    }

    /// What has been counted for `ext` so far.
    pub fn total(&self, ext: &str) -> (total: u64)
        requires
            self.wf(),
        ensures
            total == total_of(self@, ext@),
    {
        let (at, found) = self.count.find(ext);
        if found {
            *self.count.slot_at(at)
        } else {
            0
        }
    }

    /// Whether no file was taken in.
    pub fn is_empty(&self) -> (b: bool)
        ensures
            b == (self@.len() == 0),
    {
        self.count.is_empty()
    }
}

impl Default for PerExtensionCount {
    /// A collector that has seen no file.
    fn default() -> (collector: Self)
        ensures
            collector.wf(),
            collector@ == Seq::<(Seq<char>, u64)>::empty(),
    {
        PerExtensionCount::new()
    }
}

impl Collector for PerExtensionCount {
    closed spec fn wf(&self) -> bool {
        self.count.wf()
    }

    /// The total of an extension must stay within 64 bits.
    open spec fn accepts(state: Seq<(Seq<char>, u64)>, ext: Seq<char>, count: u64) -> bool {
        total_of(state, ext) + count <= u64::MAX
    }

    open spec fn incremented(
        state: Seq<(Seq<char>, u64)>,
        ext: Seq<char>,
        path: Seq<char>,
        count: u64,
    ) -> Seq<(Seq<char>, u64)> {
        added(state, ext, count)
    }

    open spec fn report(state: Seq<(Seq<char>, u64)>, human_readable_base: Option<u64>) -> Seq<
        Seq<char>,
    > {
        totals_report(state, human_readable_base)
    }

    fn can_increment(&self, ext: &str, count: u64) -> (ok: bool) {
        count <= u64::MAX - self.total(ext)
    }

    fn increment(&mut self, ext: String, path: &str, count: u64) {
        let slot = self.count.increment(ext);
        *slot = *slot + count;
    }

    fn print_counts(self, human_readable_base: Option<u64>) -> (lines: Vec<String>) {
        let ghost rows = self@;
        let ghost keys = keys_of(rows);
        let n = self.count.len();
        let mut width: usize = 0;
        let mut items: Vec<WithSize> = Vec::new();
        let mut i: usize = 0;
        assert(keys.take(0) =~= Seq::<Seq<char>>::empty());
        while i < n
            invariant
                self.count.wf(),
                rows == self.count.rows(),
                keys == keys_of(rows),
                n == rows.len(),
                i <= n,
                width == widest(keys.take(i as int)),
                items_of(items@) == totals_as_items(rows).take(i as int),
            decreases n - i,
        {
            let key = self.count.key_at(i);
            let len = key.as_bytes().len();
            proof {
                assert(keys.take(i + 1).drop_last() =~= keys.take(i as int));
                assert(keys.take(i + 1).last() == key@);
            }
            if len > width {
                width = len;
            }
            let ghost before = items_of(items@);
            let item = WithSize::new(*self.count.slot_at(i), key.to_owned());
            items.push(item);
            assert(items_of(items@) =~= before.push(item@));
            assert(totals_as_items(rows).take(i + 1) =~= before.push(item@));
            i += 1;
        }
        assert(keys.take(n as int) =~= keys);
        assert(totals_as_items(rows).take(n as int) =~= totals_as_items(rows));
        let shown = arrange(items, true);
        let mut lines: Vec<String> = Vec::new();
        let ghost order = items_of(shown@);
        let ghost wide = width as nat;
        let mut j: usize = 0;
        while j < shown.len()
            invariant
                j <= shown@.len(),
                order == items_of(shown@),
                wide == width,
                human_readable_base matches Some(b) ==> b > 0,
                lines_of(lines@) == order.take(j as int).map_values(
                    |item: Item| total_line(item, wide, human_readable_base),
                ),
            decreases shown@.len() - j,
        {
            let ghost before = lines_of(lines@);
            let line = line_of_total(&shown[j], width, human_readable_base);
            let ghost text = line@;
            lines.push(line);
            assert(lines_of(lines@) =~= before.push(text));
            assert(order.take(j + 1).map_values(
                |item: Item| total_line(item, wide, human_readable_base),
            ) =~= before.push(text));
            j += 1;
        }
        assert(order.take(shown@.len() as int) =~= order);
        lines
    }
}

/// What a collector of the largest files holds: how many files it keeps per
/// extension, and per extension, ascending, the files kept, the largest
/// first.
pub struct Largest {
    pub target: nat,
    pub groups: Seq<(Seq<char>, Seq<Item>)>,
}

/// The files kept for `ext`: none where no file with it was seen.
pub open spec fn held_for(groups: Seq<(Seq<char>, Seq<Item>)>, ext: Seq<char>) -> Seq<Item> {
    match get(groups, ext) {
        Some(held) => held,
        None => Seq::empty(),
    }
}

/// The groups that rows of kept files stand for.
pub open spec fn groups_of(rows: Seq<(Seq<char>, Vec<WithSize>)>) -> Seq<(Seq<char>, Seq<Item>)> {
    rows.map_values(|row: (Seq<char>, Vec<WithSize>)| (row.0, items_of(row.1@)))
}

/// Whether each extension's files are arranged with the largest first and
/// are no more than `target`.
pub open spec fn bounded(groups: Seq<(Seq<char>, Seq<Item>)>, target: nat) -> bool {
    forall|i: int|
        0 <= i < groups.len() ==> arranged((#[trigger] groups[i]).1, false) && groups[i].1.len()
            <= target
}

/// Putting bounded, arranged files under a key keeps the groups bounded.
pub proof fn lemma_put_bounded(
    groups: Seq<(Seq<char>, Seq<Item>)>,
    ext: Seq<char>,
    held: Seq<Item>,
    target: nat,
)
    requires
        ascending(keys_of(groups)),
        bounded(groups, target),
        arranged(held, false),
        held.len() <= target,
    ensures
        bounded(put(groups, ext, held), target),
{
    lemma_rank_parts(keys_of(groups), ext);
    let at = rank(keys_of(groups), ext);
    let after = put(groups, ext, held);
    assert forall|i: int| 0 <= i < after.len() implies arranged((#[trigger] after[i]).1, false)
        && after[i].1.len() <= target by {
        if i != at {
            if has_key(groups, ext) {
                assert(after[i] == groups[i]);
            } else if i < at {
                assert(after[i] == groups[i]);
            } else {
                assert(after[i] == groups[i - 1]);
            }
        }
    }
}

/// The collector of largest files: per extension, the `target` largest files
/// seen. Of two files of one size the one whose path comes later counts as
/// the larger.
pub struct PerExtensionMax {
    queues: PerExtension<Vec<WithSize>>,
    target: usize,
}

impl View for PerExtensionMax {
    type V = Largest;

    closed spec fn view(&self) -> Largest {
        Largest { target: self.target as nat, groups: groups_of(self.queues.rows()) }
    }
}

impl PerExtensionMax {
    /// A collector that keeps the `target` largest files of each extension
    /// and has seen none.
    pub fn new(target: usize) -> (collector: Self)
        ensures
            collector.wf(),
            collector@ == (Largest { target: target as nat, groups: Seq::empty() }),
    {
        let collector = PerExtensionMax { queues: PerExtension::new(), target };
        assert(collector@.groups =~= Seq::empty());
        collector
    }

    /// In a well-formed collector the extensions are ascending, and each has
    /// its files arranged and no more of them than the collector keeps.
    pub proof fn lemma_bounded(&self)
        requires
            self.wf(),
        ensures
            ascending(keys_of(self@.groups)),
            bounded(self@.groups, self@.target),
    {
        self.queues.lemma_wf();
        assert(keys_of(self@.groups) =~= keys_of(self.queues.rows()));
    }

    /// How many files are kept per extension.
    pub fn target(&self) -> (target: usize)
        ensures
            target == self@.target,
    {
        self.target
    }

    /// How many files are kept for `ext` at present.
    pub fn kept_for(&self, ext: &str) -> (n: usize)
        requires
            self.wf(),
        ensures
            n == held_for(self@.groups, ext@).len(),
    {
        proof {
            assert(keys_of(self@.groups) =~= keys_of(self.queues.rows()));
        }
        let (at, found) = self.queues.find(ext);
        if found {
            self.queues.slot_at(at).len()
        } else {
            0
        }
    }
}

impl Collector for PerExtensionMax {
    closed spec fn wf(&self) -> bool {
        &&& self.queues.wf()
        &&& bounded(groups_of(self.queues.rows()), self.target as nat)
    }

    /// A file is always taken in.
    open spec fn accepts(state: Largest, ext: Seq<char>, count: u64) -> bool {
        true
    }

    open spec fn incremented(state: Largest, ext: Seq<char>, path: Seq<char>, count: u64) -> Largest {
        Largest {
            target: state.target,
            groups: put(
                state.groups,
                ext,
                kept(held_for(state.groups, ext), (count, path), state.target),
            ),
        }
    }

    open spec fn report(state: Largest, human_readable_base: Option<u64>) -> Seq<Seq<char>> {
        largest_report(state.groups, human_readable_base)
    }

    fn can_increment(&self, ext: &str, count: u64) -> (ok: bool) {
        true
    }

    fn increment(&mut self, ext: String, path: &str, count: u64) {
        let ghost rows = self.queues.rows();
        let ghost groups = groups_of(rows);
        let ghost key = ext@;
        let ghost limit = self.target as nat;
        let ghost held = held_for(groups, key);
        proof {
            self.queues.lemma_wf();
            assert(keys_of(groups) =~= keys_of(rows));
            lemma_rank_parts(keys_of(rows), key);
            if has_key(rows, key) {
                lemma_get_is_row(groups, rank(keys_of(rows), key));
            }
            assert(arranged(held, false) && held.len() <= limit);
        }
        let elem = WithSize::new(count, path.to_owned());
        let target = self.target;
        let heap = self.queues.increment(ext);
        assert(items_of(heap@) =~= held);
        insert_arranged(heap, elem, false);
        heap.truncate(target);
        proof {
            let all = with_item(held, elem@, false);
            lemma_with_item(held, elem@, false);
            lemma_first_of_arranged(all, limit, false);
            assert(items_of(heap@) =~= kept(held, elem@, limit));
            let now = kept(held, elem@, limit);
            lemma_put_bounded(groups, key, now, limit);
            assert(groups_of(put(rows, key, *heap)) =~= put(groups, key, now)) by {
                assert(keys_of(put(rows, key, *heap)) =~= keys_of(put(groups, key, now)));
            }
        }
    }

    fn print_counts(self, human_readable_base: Option<u64>) -> (lines: Vec<String>) {
        let ghost groups = self@.groups;
        let n = self.queues.len();
        let mut lines: Vec<String> = Vec::new();
        let mut i: usize = 0;
        assert(groups.take(0) =~= Seq::<(Seq<char>, Seq<Item>)>::empty());
        while i < n
            invariant
                self.queues.wf(),
                groups == groups_of(self.queues.rows()),
                n == groups.len(),
                i <= n,
                human_readable_base matches Some(b) ==> b > 0,
                lines_of(lines@) == largest_report(groups.take(i as int), human_readable_base),
            decreases n - i,
        {
            let ghost done = lines_of(lines@);
            let ghost group = groups[i as int];
            proof {
                assert(groups.take(i + 1).drop_last() =~= groups.take(i as int));
                assert(groups.take(i + 1).last() == group);
            }
            let header = self.queues.key_at(i).to_owned();
            assert(header@ == group.0);
            lines.push(header);
            assert(lines_of(lines@) =~= done + seq![group.0]);
            let entries = self.queues.slot_at(i);
            let mut copies: Vec<WithSize> = Vec::new();
            let mut c: usize = 0;
            while c < entries.len()
                invariant
                    c <= entries@.len(),
                    items_of(copies@) == items_of(entries@).take(c as int),
                decreases entries@.len() - c,
            {
                let ghost before = items_of(copies@);
                let copy = WithSize::new(entries[c].size, entries[c].value.clone());
                copies.push(copy);
                assert(items_of(copies@) =~= before.push(copy@));
                assert(items_of(entries@).take(c + 1) =~= before.push(copy@));
                c += 1;
            }
            assert(items_of(entries@).take(entries@.len() as int) =~= items_of(entries@));
            let shown = arrange(copies, true);
            let ghost order = items_of(shown@);
            assert(order == display_order(group.1.to_multiset()));
            let mut j: usize = 0;
            while j < shown.len()
                invariant
                    j <= shown@.len(),
                    order == items_of(shown@),
                    human_readable_base matches Some(b) ==> b > 0,
                    lines_of(lines@) == done + seq![group.0] + order.take(j as int).map_values(
                        |item: Item| entry_line(item, human_readable_base),
                    ),
                decreases shown@.len() - j,
            {
                let ghost before = lines_of(lines@);
                let line = line_of_entry(&shown[j], human_readable_base);
                let ghost text = line@;
                lines.push(line);
                assert(lines_of(lines@) =~= before.push(text));
                assert(done + seq![group.0] + order.take(j + 1).map_values(
                    |item: Item| entry_line(item, human_readable_base),
                ) =~= before.push(text));
                j += 1;
            }
            proof {
                assert(order.take(shown@.len() as int) =~= order);
                assert(lines_of(lines@) =~= done + group_report(group, human_readable_base));
            }
            i += 1;
        }
        assert(groups.take(n as int) =~= groups);
        lines
    }
}

} // verus!
