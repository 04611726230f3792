//! What a scan decides for each file: whether its extension is wanted, what
//! has to be read of it, and what is counted for it; and what holds of the
//! totals when the scan is over.

use crate::collectors::Collector;
use crate::totals::{
    added, grand_total, lemma_added, lemma_total_within_grand_total, total_of,
};
use crate::keyed::{ascending, get, has_key, keys_of, lemma_put_rows, lemma_rank_parts, rank};
use crate::metric::{metric_of, read_metric, CountType};
use crate::text::str_eq;
use crate::walker::{extension, extension_of};
use vstd::prelude::*;

verus! {

/// The base by which counts of bytes are scaled for reading.
pub const BYTES_BASE: u64 = 1024;

/// The base by which other counts are scaled for reading.
pub const COUNT_BASE: u64 = 1000;

/// The extensions that a list of wanted extensions names.
pub open spec fn filter_of(extension_filter: Seq<String>) -> Seq<Seq<char>> {
    extension_filter.map_values(|ext: String| ext@)
}

/// Whether files with the extension `ext` are counted: all are where no
/// extension is named, else those whose extension is among the named.
pub open spec fn admitted(filter: Seq<Seq<char>>, ext: Seq<char>) -> bool {
    filter.len() == 0 || filter.contains(ext)
}

/// What is counted: lengths where sizes are asked for, else files where
/// their number is asked for, else lines.
pub open spec fn chosen_count_type(sizes: bool, files: bool) -> CountType {
    if sizes {
        CountType::Bytes
    } else if files {
        CountType::Files
    } else {
        CountType::Lines
    }
}

/// The base for numbers made readable: 1024 for bytes, 1000 for all else,
/// and none where numbers are printed as they are.
pub open spec fn base_for(human_readable: bool, count_type: CountType) -> Option<u64> {
    if !human_readable {
        None
    } else if count_type == CountType::Bytes {
        Some(BYTES_BASE)
    } else {
        Some(COUNT_BASE)
    }
}

/// The state of a collector after the file at `path`, of which `read` was
/// read, came by: the file is taken in with its extension and its metric
/// where its extension is admitted, and changes nothing where it is not.
pub open spec fn after_file<C: Collector>(
    state: C::V,
    count_type: CountType,
    filter: Seq<Seq<char>>,
    path: Seq<char>,
    read: u64,
) -> C::V {
    if admitted(filter, extension_of(path)) {
        C::incremented(state, extension_of(path), path, metric_of(count_type, read))
    } else {
        state
    }
}

/// What is counted, by what was asked for; sizes go before the number of
/// files.
pub fn count_type_for(sizes: bool, files: bool) -> (count_type: CountType)
    ensures
        count_type == chosen_count_type(sizes, files),
{
    if sizes {
        CountType::Bytes
    } else if files {
        CountType::Files
    } else {
        CountType::Lines
    }
}

/// The base for the report's numbers.
pub fn human_readable_base(human_readable: bool, count_type: CountType) -> (base: Option<u64>)
    ensures
        base == base_for(human_readable, count_type),
        base matches Some(b) ==> b > 0,
{
    if !human_readable {
        None
    } else if count_type == CountType::Bytes {
        Some(BYTES_BASE)
    } else {
        Some(COUNT_BASE)
    }
}

/// Whether files with the extension `ext` are counted.
pub fn admits(extension_filter: &Vec<String>, ext: &str) -> (wanted: bool)
    ensures
        wanted == admitted(filter_of(extension_filter@), ext@),
{
    if extension_filter.len() == 0 {
        return true;
    }
    let ghost filter = filter_of(extension_filter@);
    let mut i: usize = 0;
    while i < extension_filter.len()
        invariant
            i <= extension_filter@.len(),
            filter == filter_of(extension_filter@),
            forall|j: int| 0 <= j < i ==> filter[j] != ext@,
        decreases extension_filter@.len() - i,
    {
        if str_eq(extension_filter[i].as_str(), ext) {
            assert(filter[i as int] == ext@);
            return true;
        }
        i += 1;
    }
    false
}

/// Whether the file at `path` is counted: whether its extension is
/// admitted. Nothing needs to be read of a file that is not.
pub fn wanted(extension_filter: &Vec<String>, path: &str) -> (wanted: bool)
    ensures
        wanted == admitted(filter_of(extension_filter@), extension_of(path@)),
{
    let ext = extension(path);
    admits(extension_filter, ext.as_str())
}

/// Counts the file at `path`, of which `read` was read, where its extension
/// is admitted, and says whether it did.
pub fn count_file<C: Collector>(
    counts: &mut C,
    count_type: CountType,
    extension_filter: &Vec<String>,
    path: &str,
    read: u64,
) -> (counted: bool)
    requires
        old(counts).wf(),
        admitted(filter_of(extension_filter@), extension_of(path@)) ==> C::accepts(
            old(counts)@,
            extension_of(path@),
            metric_of(count_type, read),
        ),
    ensures
        final(counts).wf(),
        counted == admitted(filter_of(extension_filter@), extension_of(path@)),
        final(counts)@ == after_file::<C>(
            old(counts)@,
            count_type,
            filter_of(extension_filter@),
            path@,
            read,
        ),
{
    let ext = extension(path);
    if !admits(extension_filter, ext.as_str()) {
        return false;
    }
    let count = read_metric(count_type, read);
    counts.increment(ext, path, count);
    true
}

/// The totals after the files `files`, each a path with what was read of it,
/// came by in this order, starting with none.
pub open spec fn tallied(
    files: Seq<(Seq<char>, u64)>,
    count_type: CountType,
    filter: Seq<Seq<char>>,
) -> Seq<(Seq<char>, u64)>
    decreases files.len(),
{
    if files.len() == 0 {
        Seq::empty()
    } else {
        let before = tallied(files.drop_last(), count_type, filter);
        let file = files.last();
        if admitted(filter, extension_of(file.0)) {
            added(before, extension_of(file.0), metric_of(count_type, file.1))
        } else {
            before
        }
    }
}

/// The number of files among `files` whose extension is admitted.
pub open spec fn admitted_count(files: Seq<(Seq<char>, u64)>, filter: Seq<Seq<char>>) -> nat
    decreases files.len(),
{
    if files.len() == 0 {
        0
    } else {
        admitted_count(files.drop_last(), filter) + if admitted(
            filter,
            extension_of(files.last().0),
        ) {
            1nat
        } else {
            0nat
        }
    }
}

/// The metrics of the files among `files` whose extension is admitted, added
/// up.
pub open spec fn metric_sum(
    files: Seq<(Seq<char>, u64)>,
    count_type: CountType,
    filter: Seq<Seq<char>>,
) -> nat
    decreases files.len(),
{
    if files.len() == 0 {
        0
    } else {
        metric_sum(files.drop_last(), count_type, filter) + if admitted(
            filter,
            extension_of(files.last().0),
        ) {
            metric_of(count_type, files.last().1) as nat
        } else {
            0nat
        }
    }
}

/// What an extension has is part of what all have.
pub proof fn lemma_total_within(rows: Seq<(Seq<char>, u64)>, ext: Seq<char>)
    requires
        ascending(keys_of(rows)),
    ensures
        total_of(rows, ext) <= grand_total(rows),
{
    lemma_rank_parts(keys_of(rows), ext);
    if has_key(rows, ext) {
        lemma_total_within_grand_total(rows, rank(keys_of(rows), ext));
    }
}

/// The totals of a scan add up to the metrics of the files counted, as long
/// as that sum fits in 64 bits; and every file that is counted can be taken
/// in then.
pub proof fn lemma_tallied_total(
    files: Seq<(Seq<char>, u64)>,
    count_type: CountType,
    filter: Seq<Seq<char>>,
)
    requires
        metric_sum(files, count_type, filter) <= u64::MAX,
    ensures
        ascending(keys_of(tallied(files, count_type, filter))),
        grand_total(tallied(files, count_type, filter)) == metric_sum(files, count_type, filter),
    decreases files.len(),
{
    if files.len() > 0 {
        let before = tallied(files.drop_last(), count_type, filter);
        let file = files.last();
        lemma_tallied_total(files.drop_last(), count_type, filter);
        if admitted(filter, extension_of(file.0)) {
            lemma_total_within(before, extension_of(file.0));
            lemma_added(before, extension_of(file.0), metric_of(count_type, file.1));
        }
    }
}

/// Where files are counted, the totals add up to the number of files whose
/// extension is admitted.
pub proof fn lemma_files_counted(files: Seq<(Seq<char>, u64)>, filter: Seq<Seq<char>>)
    requires
        admitted_count(files, filter) <= u64::MAX,
    ensures
        grand_total(tallied(files, CountType::Files, filter)) == admitted_count(files, filter),
{
    lemma_count_is_sum(files, filter);
    lemma_tallied_total(files, CountType::Files, filter);
}

/// Where files are counted, the metrics add up to the number of files.
pub proof fn lemma_count_is_sum(files: Seq<(Seq<char>, u64)>, filter: Seq<Seq<char>>)
    ensures
        metric_sum(files, CountType::Files, filter) == admitted_count(files, filter),
    decreases files.len(),
{
    if files.len() > 0 {
        lemma_count_is_sum(files.drop_last(), filter);
    }
}

/// The lengths of the files among `files` whose extension is admitted, added
/// up.
pub open spec fn size_sum(files: Seq<(Seq<char>, u64)>, filter: Seq<Seq<char>>) -> nat
    decreases files.len(),
{
    if files.len() == 0 {
        0
    } else {
        size_sum(files.drop_last(), filter) + if admitted(filter, extension_of(files.last().0)) {
            files.last().1 as nat
        } else {
            0nat
        }
    }
}

/// Where bytes are counted, the totals add up to the lengths of the files
/// whose extension is admitted.
pub proof fn lemma_bytes_counted(files: Seq<(Seq<char>, u64)>, filter: Seq<Seq<char>>)
    requires
        size_sum(files, filter) <= u64::MAX,
    ensures
        grand_total(tallied(files, CountType::Bytes, filter)) == size_sum(files, filter),
{
    lemma_size_is_sum(files, filter);
    lemma_tallied_total(files, CountType::Bytes, filter);
}

/// Where bytes are counted, the metrics add up to the lengths.
pub proof fn lemma_size_is_sum(files: Seq<(Seq<char>, u64)>, filter: Seq<Seq<char>>)
    ensures
        metric_sum(files, CountType::Bytes, filter) == size_sum(files, filter),
    decreases files.len(),
{
    if files.len() > 0 {
        lemma_size_is_sum(files.drop_last(), filter);
    }
}

/// Only admitted extensions get a row: with extensions named, the report has
/// a line for none but these.
pub proof fn lemma_only_admitted(
    files: Seq<(Seq<char>, u64)>,
    count_type: CountType,
    filter: Seq<Seq<char>>,
)
    requires
        metric_sum(files, count_type, filter) <= u64::MAX,
    ensures
        forall|i: int|
            0 <= i < tallied(files, count_type, filter).len() ==> admitted(
                filter,
                (#[trigger] tallied(files, count_type, filter)[i]).0,
            ),
    decreases files.len(),
{
    if files.len() > 0 {
        let before = tallied(files.drop_last(), count_type, filter);
        let file = files.last();
        let ext = extension_of(file.0);
        lemma_only_admitted(files.drop_last(), count_type, filter);
        lemma_tallied_total(files.drop_last(), count_type, filter);
        if admitted(filter, ext) {
            let sum = (total_of(before, ext) + metric_of(count_type, file.1)) as u64;
            lemma_put_rows(before, ext, sum);
            let after = tallied(files, count_type, filter);
            assert forall|i: int| 0 <= i < after.len() implies admitted(
                filter,
                (#[trigger] after[i]).0,
            ) by {
                if after[i] != (ext, sum) {
                    let j = choose|j: int| 0 <= j < before.len() && before[j] == after[i];
                    assert(admitted(filter, before[j].0));
                }
            }
        }
    }
}

} // verus!
