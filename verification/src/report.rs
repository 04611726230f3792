//! The lines of the reports: how an extension is labelled, how a line is put
//! together, and in which order the lines come.

use crate::format::{format_human_readable, human_readable};
use crate::keyed::keys_of;
use crate::ranking::{display_order, Item, WithSize};
use crate::text::byte_len;
use vstd::prelude::*;
use vstd::string::StringExecFns;

verus! {

/// The texts that a list of lines holds.
pub open spec fn lines_of(lines: Seq<String>) -> Seq<Seq<char>> {
    lines.map_values(|line: String| line@)
}

/// `n` spaces.
pub open spec fn spaces(n: nat) -> Seq<char> {
    Seq::new(n, |i: int| ' ')
}

/// The length in bytes of the longest of `keys`.
pub open spec fn widest(keys: Seq<Seq<char>>) -> nat
    decreases keys.len(),
{
    if keys.len() == 0 {
        0
    } else {
        let rest = widest(keys.drop_last());
        if byte_len(keys.last()) > rest {
            byte_len(keys.last())
        } else {
            rest
        }
    }
}

/// The label of `ext` in a column made for extensions of up to `widest`
/// bytes: the extension behind a dot, the empty extension without one, and
/// spaces up to the width of the longest label.
pub open spec fn padded_label(ext: Seq<char>, widest: nat) -> Seq<char> {
    if ext.len() == 0 {
        spaces(
            if widest > 0 {
                widest + 1
            } else {
                0
            },
        )
    } else {
        seq!['.'] + ext + spaces(
            if widest > byte_len(ext) {
                (widest - byte_len(ext)) as nat
            } else {
                0
            },
        )
    }
}

/// The line of the report on totals for one extension.
pub open spec fn total_line(item: Item, widest: nat, base: Option<u64>) -> Seq<char> {
    padded_label(item.1, widest) + seq![' '] + human_readable(item.0, base)
}

/// The rows as items: each total with its extension as the text.
pub open spec fn totals_as_items(rows: Seq<(Seq<char>, u64)>) -> Seq<Item> {
    rows.map_values(|row: (Seq<char>, u64)| (row.1, row.0))
}

/// The report on totals: one line per extension, the largest total first,
/// equal totals by ascending extension.
pub open spec fn totals_report(rows: Seq<(Seq<char>, u64)>, base: Option<u64>) -> Seq<Seq<char>> {
    let width = widest(keys_of(rows));
    display_order(totals_as_items(rows).to_multiset()).map_values(
        |item: Item| total_line(item, width, base),
    )
}

/// The line of the report on largest files for one file.
pub open spec fn entry_line(item: Item, base: Option<u64>) -> Seq<char> {
    seq![' ', ' '] + human_readable(item.0, base) + seq![' '] + item.1
}

/// The lines of the report on largest files for one extension: the
/// extension, then its files, the largest first, equal sizes by ascending
/// path.
pub open spec fn group_report(group: (Seq<char>, Seq<Item>), base: Option<u64>) -> Seq<Seq<char>> {
    seq![group.0] + display_order(group.1.to_multiset()).map_values(
        |item: Item| entry_line(item, base),
    )
}

/// The report on largest files: the lines of each extension, the extensions
/// ascending.
pub open spec fn largest_report(groups: Seq<(Seq<char>, Seq<Item>)>, base: Option<u64>) -> Seq<
    Seq<char>,
>
    decreases groups.len(),
{
    if groups.len() == 0 {
        Seq::empty()
    } else {
        largest_report(groups.drop_last(), base) + group_report(groups.last(), base)
    }
}

/// Appends `n` spaces to `line`.
pub fn push_spaces(line: &mut String, n: usize)
    ensures
        final(line)@ == old(line)@ + spaces(n as nat),
{
    let mut done: usize = 0;
    assert(line@ + spaces(0) =~= line@);
    while done < n
        invariant
            done <= n,
            line@ == old(line)@ + spaces(done as nat),
        decreases n - done,
    {
        proof {
            reveal_strlit(" ");
        }
        line.append(" ");
        done += 1;
        assert(line@ =~= old(line)@ + spaces(done as nat));
    }
}

/// The line of the report on totals for `item`, a total with its extension,
/// in a column made for extensions of up to `width` bytes.
pub fn line_of_total(item: &WithSize, width: usize, base: Option<u64>) -> (line: String)
    requires
        base matches Some(b) ==> b > 0,
    ensures
        line@ == total_line(item@, width as nat, base),
{
    let ext = item.value.as_str();
    let mut line = String::new();
    if ext.is_empty() {
        push_spaces(&mut line, width);
        if width > 0 {
            push_spaces(&mut line, 1);
        }
        assert(line@ =~= padded_label(ext@, width as nat));
    } else {
        proof {
            reveal_strlit(".");
        }
        line.append(".");
        line.append(ext);
        let len = ext.as_bytes().len();
        if width > len {
            push_spaces(&mut line, width - len);
        } else {
            push_spaces(&mut line, 0);
        }
        assert(line@ =~= padded_label(ext@, width as nat));
    }
    proof {
        reveal_strlit(" ");
    }
    line.append(" ");
    let number = format_human_readable(item.size, base);
    line.append(number.as_str());
    assert(line@ =~= total_line(item@, width as nat, base));
    line
}

/// The line of the report on largest files for `item`, a size with its path.
pub fn line_of_entry(item: &WithSize, base: Option<u64>) -> (line: String)
    requires
        base matches Some(b) ==> b > 0,
    ensures
        line@ == entry_line(item@, base),
{
    proof {
        reveal_strlit("  ");
        reveal_strlit(" ");
    }
    let mut line = String::new();
    line.append("  ");
    let number = format_human_readable(item.size, base);
    line.append(number.as_str());
    line.append(" ");
    line.append(item.value.as_str());
    assert(line@ =~= entry_line(item@, base));
    line
}

} // verus!
