//! What a walk comes to over a whole tree: driven by someone who does what is
//! asked and meets no failure, it visits the regular files of the tree, each
//! once, depth first and in the order in which the directories list them, and
//! it opens one handle for each entry and gives every handle up again.

use crate::walk::{
    advanced, consistent, given_up_in, lemma_advanced, lemma_handles_balance, open_handles,
    opened_by, opened_in, run, starting, ReplyView, Request, Walk,
};
use crate::walker::{joined, kind_of, EntryKind};
use vstd::prelude::*;

verus! {

/// An entry of a directory in contracts: its name, its mode word, and, for a
/// directory, its own entries in the order in which they are listed.
pub struct Entry {
    pub name: Seq<u8>,
    pub mode: u32,
    pub entries: Seq<Entry>,
}

/// What the driver answers while the first `n` of `entries` are dealt with.
pub open spec fn answers_within(entries: Seq<Entry>, n: nat) -> Seq<ReplyView>
    decreases entries, n,
{
    if n == 0 || n > entries.len() {
        Seq::empty()
    } else {
        answers_within(entries, (n - 1) as nat) + answers_about(entries[n - 1])
    }
}

/// What the driver answers while the entry `e` is dealt with: its name, that
/// it is open, its mode word, and then by its kind: that a file was visited,
/// that a directory is to be walked and all the answers within it up to its
/// release, or that the entry was released.
pub open spec fn answers_about(e: Entry) -> Seq<ReplyView>
    decreases e, 0nat,
{
    seq![ReplyView::Entry(e.name), ReplyView::Opened, ReplyView::Mode(e.mode)] + match kind_of(
        e.mode,
        e.name,
    ) {
        EntryKind::Directory => seq![ReplyView::Entered(true)] + answers_within(
            e.entries,
            e.entries.len(),
        ) + seq![ReplyView::NoMoreEntries, ReplyView::Done, ReplyView::Done],
        _ => seq![ReplyView::Done],
    }
}

/// What the driver answers in the course of a walk of a root with the
/// entries `entries`.
pub open spec fn answers_of_walk(entries: Seq<Entry>) -> Seq<ReplyView> {
    seq![ReplyView::Opened, ReplyView::Entered(true)] + answers_within(entries, entries.len())
        + seq![ReplyView::NoMoreEntries, ReplyView::Done, ReplyView::Done]
}

/// The paths of the regular files among the first `n` of the entries of the
/// directory `dir` and below them, depth first.
pub open spec fn files_within(dir: Seq<u8>, entries: Seq<Entry>, n: nat) -> Seq<Seq<u8>>
    decreases entries, n,
{
    if n == 0 || n > entries.len() {
        Seq::empty()
    } else {
        files_within(dir, entries, (n - 1) as nat) + files_about(dir, entries[n - 1])
    }
}

/// The paths of the regular files that the entry `e` of the directory `dir`
/// is or holds.
pub open spec fn files_about(dir: Seq<u8>, e: Entry) -> Seq<Seq<u8>>
    decreases e, 0nat,
{
    match kind_of(e.mode, e.name) {
        EntryKind::File => seq![joined(dir, e.name)],
        EntryKind::Directory => files_within(joined(dir, e.name), e.entries, e.entries.len()),
        EntryKind::Other => Seq::empty(),
    }
}

/// The number of entries among the first `n` of `entries` and below them.
pub open spec fn entries_within(entries: Seq<Entry>, n: nat) -> nat
    decreases entries, n,
{
    if n == 0 || n > entries.len() {
        0
    } else {
        entries_within(entries, (n - 1) as nat) + entries_about(entries[n - 1])
    }
}

/// The number of entries that `e` is and holds.
pub open spec fn entries_about(e: Entry) -> nat
    decreases e, 0nat,
{
    1 + match kind_of(e.mode, e.name) {
        EntryKind::Directory => entries_within(e.entries, e.entries.len()),
        _ => 0nat,
    }
}

/// The path that the visitor is handed on the request that follows the
/// answer `reply`, if that request is to visit.
pub open spec fn visited_after(w: Walk, reply: ReplyView) -> Seq<Seq<u8>> {
    let next = advanced(w, reply);
    if w.waiting != Request::Finish && next.waiting == Request::Visit {
        seq![joined(next.dirs.last(), next.name)]
    } else {
        Seq::empty()
    }
}

/// The paths that the visitor is handed in the course of the answers
/// `replies`, in this order.
pub open spec fn visited_in(w: Walk, replies: Seq<ReplyView>) -> Seq<Seq<u8>>
    decreases replies.len(),
{
    if replies.len() == 0 {
        Seq::empty()
    } else {
        visited_in(w, replies.drop_last()) + visited_after(
            run(w, replies.drop_last()),
            replies.last(),
        )
    }
}

/// Answers given one after another: the walk goes through the first, then
/// through the others, and what is visited and opened adds up.
pub proof fn lemma_run_concat(w: Walk, first: Seq<ReplyView>, then: Seq<ReplyView>)
    ensures
        run(w, first + then) == run(run(w, first), then),
        visited_in(w, first + then) == visited_in(w, first) + visited_in(run(w, first), then),
        opened_in(w, first + then) == opened_in(w, first) + opened_in(run(w, first), then),
    decreases then.len(),
{
    if then.len() == 0 {
        assert(first + then =~= first);
        assert(visited_in(w, first) + Seq::<Seq<u8>>::empty() =~= visited_in(w, first));
    } else {
        lemma_run_concat(w, first, then.drop_last());
        assert((first + then).drop_last() =~= first + then.drop_last());
        assert((first + then).last() == then.last());
        let mid = run(w, first);
        assert(visited_in(w, first + then) =~= visited_in(w, first) + visited_in(mid, then));
    }
}

/// One answer takes the walk one step.
pub proof fn lemma_run_one(w: Walk, reply: ReplyView)
    ensures
        run(w, seq![reply]) == advanced(w, reply),
        visited_in(w, seq![reply]) == visited_after(w, reply),
        opened_in(w, seq![reply]) == opened_by(w, reply),
{
    let one = seq![reply];
    assert(one.drop_last() =~= Seq::<ReplyView>::empty());
    assert(one.last() == reply);
    assert(run(w, one.drop_last()) == w);
    assert(opened_in(w, one.drop_last()) == 0);
    assert(visited_in(w, one.drop_last()) =~= Seq::<Seq<u8>>::empty());
    assert(visited_in(w, one) =~= visited_after(w, reply));
}

/// A further answer takes the walk one step further.
pub proof fn lemma_run_push(w: Walk, replies: Seq<ReplyView>, reply: ReplyView)
    ensures
        run(w, replies + seq![reply]) == advanced(run(w, replies), reply),
        visited_in(w, replies + seq![reply]) == visited_in(w, replies) + visited_after(
            run(w, replies),
            reply,
        ),
        opened_in(w, replies + seq![reply]) == opened_in(w, replies) + opened_by(
            run(w, replies),
            reply,
        ),
{
    lemma_run_concat(w, replies, seq![reply]);
    lemma_run_one(run(w, replies), reply);
}

/// How the walk stands between two entries of an open directory.
pub open spec fn between_entries(w: Walk) -> bool {
    consistent(w) && w.waiting == Request::NextEntry
}

/// Dealing with the first `n` entries of the innermost open directory brings
/// the walk back to where the next entry is read, with the same directories
/// open; it visits the regular files among these entries and below them,
/// depth first, and opens one handle for each entry.
pub proof fn lemma_walk_within(w: Walk, entries: Seq<Entry>, n: nat)
    requires
        between_entries(w),
        n <= entries.len(),
    ensures
        between_entries(run(w, answers_within(entries, n))),
        run(w, answers_within(entries, n)).dirs == w.dirs,
        run(w, answers_within(entries, n)).root == w.root,
        visited_in(w, answers_within(entries, n)) == files_within(w.dirs.last(), entries, n),
        opened_in(w, answers_within(entries, n)) == entries_within(entries, n),
    decreases entries, n,
{
    if n == 0 {
        assert(visited_in(w, answers_within(entries, n)) =~= files_within(
            w.dirs.last(),
            entries,
            n,
        ));
    } else {
        let before = answers_within(entries, (n - 1) as nat);
        let e = entries[n - 1];
        lemma_walk_within(w, entries, (n - 1) as nat);
        let mid = run(w, before);
        lemma_walk_about(mid, e);
        lemma_run_concat(w, before, answers_about(e));
    }
}

/// Dealing with one entry of the innermost open directory brings the walk
/// back to where the next entry is read, with the same directories open. A
/// regular file is visited under its path; of a directory the regular files
/// in it and below are, depth first; anything else is passed over. One handle
/// is opened for the entry, and one for each entry below it.
pub proof fn lemma_walk_about(w: Walk, e: Entry)
    requires
        between_entries(w),
    ensures
        between_entries(run(w, answers_about(e))),
        run(w, answers_about(e)).dirs == w.dirs,
        run(w, answers_about(e)).root == w.root,
        visited_in(w, answers_about(e)) == files_about(w.dirs.last(), e),
        opened_in(w, answers_about(e)) == entries_about(e),
    decreases e, 0nat,
{
    let dir = w.dirs.last();
    let head = seq![ReplyView::Entry(e.name), ReplyView::Opened, ReplyView::Mode(e.mode)];
    let w1 = advanced(w, ReplyView::Entry(e.name));
    let w2 = advanced(w1, ReplyView::Opened);
    let w3 = advanced(w2, ReplyView::Mode(e.mode));
    lemma_advanced(w, ReplyView::Entry(e.name));
    lemma_advanced(w1, ReplyView::Opened);
    lemma_advanced(w2, ReplyView::Mode(e.mode));
    // the three answers that every entry gets
    assert(run(w, head) == w3 && visited_in(w, head) == visited_after(w2, ReplyView::Mode(e.mode))
        && opened_in(w, head) == 1) by {
        let one = seq![ReplyView::Entry(e.name)];
        let two = one + seq![ReplyView::Opened];
        lemma_run_one(w, ReplyView::Entry(e.name));
        lemma_run_push(w, one, ReplyView::Opened);
        lemma_run_push(w, two, ReplyView::Mode(e.mode));
        assert(two + seq![ReplyView::Mode(e.mode)] =~= head);
        assert(visited_after(w, ReplyView::Entry(e.name)) =~= Seq::<Seq<u8>>::empty());
        assert(visited_after(w1, ReplyView::Opened) =~= Seq::<Seq<u8>>::empty());
        assert(visited_in(w, head) =~= visited_after(w2, ReplyView::Mode(e.mode)));
    }
    match kind_of(e.mode, e.name) {
        EntryKind::Directory => {
            let inner = answers_within(e.entries, e.entries.len());
            let w4 = advanced(w3, ReplyView::Entered(true));
            lemma_advanced(w3, ReplyView::Entered(true));
            lemma_walk_within(w4, e.entries, e.entries.len());
            let w5 = run(w4, inner);
            let w6 = advanced(w5, ReplyView::NoMoreEntries);
            let w7 = advanced(w6, ReplyView::Done);
            let w8 = advanced(w7, ReplyView::Done);
            lemma_advanced(w5, ReplyView::NoMoreEntries);
            lemma_advanced(w6, ReplyView::Done);
            lemma_advanced(w7, ReplyView::Done);
            assert(w7.dirs =~= w.dirs);
            let s1 = head + seq![ReplyView::Entered(true)];
            let s2 = s1 + inner;
            let s3 = s2 + seq![ReplyView::NoMoreEntries];
            let s4 = s3 + seq![ReplyView::Done];
            let s5 = s4 + seq![ReplyView::Done];
            lemma_run_push(w, head, ReplyView::Entered(true));
            lemma_run_concat(w, s1, inner);
            lemma_run_push(w, s2, ReplyView::NoMoreEntries);
            lemma_run_push(w, s3, ReplyView::Done);
            lemma_run_push(w, s4, ReplyView::Done);
            assert(s5 =~= answers_about(e));
            assert(w4.dirs.last() == joined(dir, e.name));
            assert(visited_in(w, s5) =~= files_about(dir, e));
        },
        _ => {
            let w4 = advanced(w3, ReplyView::Done);
            lemma_advanced(w3, ReplyView::Done);
            lemma_run_push(w, head, ReplyView::Done);
            assert(head + seq![ReplyView::Done] =~= answers_about(e));
            assert(visited_in(w, answers_about(e)) =~= files_about(dir, e));
        },
    }
}

/// The walk of a tree, driven by someone who does what is asked and meets no
/// failure, ends well. It visits the regular files of the tree, each once,
/// depth first and in the order in which the directories list their entries.
/// It opens one handle for the root and one for each entry, and gives up as
/// many.
pub proof fn lemma_walk_of_tree(root: Seq<u8>, entries: Seq<Entry>)
    ensures
        run(starting(root), answers_of_walk(entries)).waiting == Request::Finish,
        run(starting(root), answers_of_walk(entries)).failure is None,
        visited_in(starting(root), answers_of_walk(entries)) == files_within(
            root,
            entries,
            entries.len(),
        ),
        opened_in(starting(root), answers_of_walk(entries)) == 1 + entries_within(
            entries,
            entries.len(),
        ),
        given_up_in(starting(root), answers_of_walk(entries)) == 1 + entries_within(
            entries,
            entries.len(),
        ),
{
    let w = starting(root);
    let inner = answers_within(entries, entries.len());
    let w1 = advanced(w, ReplyView::Opened);
    let w2 = advanced(w1, ReplyView::Entered(true));
    lemma_advanced(w, ReplyView::Opened);
    lemma_advanced(w1, ReplyView::Entered(true));
    assert(w2.dirs.last() == root);
    lemma_walk_within(w2, entries, entries.len());
    let w3 = run(w2, inner);
    let w4 = advanced(w3, ReplyView::NoMoreEntries);
    let w5 = advanced(w4, ReplyView::Done);
    let w6 = advanced(w5, ReplyView::Done);
    lemma_advanced(w3, ReplyView::NoMoreEntries);
    lemma_advanced(w4, ReplyView::Done);
    lemma_advanced(w5, ReplyView::Done);
    assert(w5.dirs.len() == 0);
    let s1 = seq![ReplyView::Opened];
    let s2 = s1 + seq![ReplyView::Entered(true)];
    let s3 = s2 + inner;
    let s4 = s3 + seq![ReplyView::NoMoreEntries];
    let s5 = s4 + seq![ReplyView::Done];
    let s6 = s5 + seq![ReplyView::Done];
    lemma_run_one(w, ReplyView::Opened);
    lemma_run_push(w, s1, ReplyView::Entered(true));
    lemma_run_concat(w, s2, inner);
    lemma_run_push(w, s3, ReplyView::NoMoreEntries);
    lemma_run_push(w, s4, ReplyView::Done);
    lemma_run_push(w, s5, ReplyView::Done);
    assert(s6 =~= answers_of_walk(entries));
    assert(visited_in(w, s6) =~= files_within(root, entries, entries.len()));
    lemma_handles_balance(w, s6);
    assert(open_handles(w) == 0);
}

} // verus!
