//! The walk over a directory tree as a machine. The machine decides; whoever
//! drives it opens, reads and closes. Each answer of the driver is met with
//! the next request, until the walk is finished. Handles are accounted for:
//! whatever happens, each one that was opened is released before the walk
//! finishes.

use crate::walker::{classify, join, joined, kind_of, EntryKind};
use vstd::prelude::*;

verus! {

/// Why a walk came to nothing.
#[derive(Clone, Copy, PartialEq, Eq, Structural, Debug)]
pub enum ErrorKind {
    /// The root or an entry could not be opened.
    Open,
    /// Reading a directory or a file failed, or a handle could not be released.
    Io,
}

/// What the driver is asked to do next.
#[derive(Clone, Copy, PartialEq, Eq, Structural, Debug)]
pub enum Request {
    /// Open the root as a directory.
    OpenRoot,
    /// Tell the visitor that the innermost open directory is entered, and
    /// answer whether it is to be walked.
    Enter,
    /// Read the next entry of the innermost open directory.
    NextEntry,
    /// Open the entry just read, relative to the innermost open directory.
    OpenEntry,
    /// Ask the entry's handle for the entry's mode word.
    Stat,
    /// Hand the entry's handle to the visitor, with the entry's path. The
    /// handle is the visitor's from then on, to use and to release.
    Visit,
    /// Release the entry's handle.
    CloseEntry,
    /// Tell the visitor that the innermost open directory is done.
    Leave,
    /// Release the handle of the directory that was innermost.
    CloseDirectory,
    /// Nothing: the walk is over.
    Finish,
}

/// What the driver answers.
pub enum Reply {
    /// The handle is open.
    Opened,
    /// The visitor was told; the directory is to be walked, or not.
    Entered(bool),
    /// The next entry has this name.
    Entry(Vec<u8>),
    /// The directory has no further entry.
    NoMoreEntries,
    /// The entry has this mode word.
    Mode(u32),
    /// What was asked for is done.
    Done,
    /// What was asked for failed.
    Failed,
}

/// An answer in contracts.
pub enum ReplyView {
    Opened,
    Entered(bool),
    Entry(Seq<u8>),
    NoMoreEntries,
    Mode(u32),
    Done,
    Failed,
}

impl View for Reply {
    type V = ReplyView;

    open spec fn view(&self) -> ReplyView {
        match self {
            Reply::Opened => ReplyView::Opened,
            Reply::Entered(walk) => ReplyView::Entered(*walk),
            Reply::Entry(name) => ReplyView::Entry(name@),
            Reply::NoMoreEntries => ReplyView::NoMoreEntries,
            Reply::Mode(mode) => ReplyView::Mode(*mode),
            Reply::Done => ReplyView::Done,
            Reply::Failed => ReplyView::Failed,
        }
    }
}

/// The state of a walk in contracts.
pub struct Walk {
    /// The path of the root.
    pub root: Seq<u8>,
    /// The paths of the directories whose handles are open, the root first.
    pub dirs: Seq<Seq<u8>>,
    /// The name of the entry last read.
    pub name: Seq<u8>,
    /// Whether the handle of that entry is open and not yet handed on.
    pub entry_open: bool,
    /// What the driver was asked last.
    pub waiting: Request,
    /// The first failure, once there was one.
    pub failure: Option<ErrorKind>,
}

/// A walk of `root` before anything was done: the root is to be opened.
pub open spec fn starting(root: Seq<u8>) -> Walk {
    Walk {
        root,
        dirs: Seq::empty(),
        name: Seq::empty(),
        entry_open: false,
        waiting: Request::OpenRoot,
        failure: None,
    }
}

/// Whether `reply` says that what `waiting` asked for was done.
pub open spec fn answers(waiting: Request, reply: ReplyView) -> bool {
    match waiting {
        Request::OpenRoot | Request::OpenEntry => reply is Opened,
        Request::Enter => reply is Entered,
        Request::NextEntry => reply is Entry || reply is NoMoreEntries,
        Request::Stat => reply is Mode,
        Request::Visit | Request::CloseEntry | Request::Leave | Request::CloseDirectory => reply
            is Done,
        Request::Finish => false,
    }
}

/// The kind of error that it is when `waiting` fails.
pub open spec fn failure_of(waiting: Request) -> ErrorKind {
    match waiting {
        Request::OpenRoot | Request::OpenEntry => ErrorKind::Open,
        _ => ErrorKind::Io,
    }
}

/// The next step on the way out: the entry's handle is released if it is
/// open, else the innermost open directory's, and with none left the walk is
/// over.
pub open spec fn unwound(w: Walk) -> Walk {
    if w.entry_open {
        Walk { entry_open: false, waiting: Request::CloseEntry, ..w }
    } else if w.dirs.len() > 0 {
        Walk { dirs: w.dirs.drop_last(), waiting: Request::CloseDirectory, ..w }
    } else {
        Walk { waiting: Request::Finish, ..w }
    }
}

/// How the walk goes on when an entry or a directory is done with: on the
/// way out after a failure, else with the next entry of the innermost open
/// directory, and with no directory left it is over.
pub open spec fn resumed(w: Walk) -> Walk {
    if w.failure is Some {
        unwound(w)
    } else if w.dirs.len() > 0 {
        Walk { waiting: Request::NextEntry, ..w }
    } else {
        Walk { waiting: Request::Finish, ..w }
    }
}

/// The walk after the driver answered `reply`. An answer that does not say
/// that the request was done counts as its failure: the first failure is
/// kept, and from then on handles are only released.
pub open spec fn advanced(w: Walk, reply: ReplyView) -> Walk {
    if w.waiting == Request::Finish {
        w
    } else if !answers(w.waiting, reply) {
        unwound(
            Walk {
                failure: if w.failure is Some {
                    w.failure
                } else {
                    Some(failure_of(w.waiting))
                },
                ..w
            },
        )
    } else {
        match w.waiting {
            Request::OpenRoot => Walk { dirs: seq![w.root], waiting: Request::Enter, ..w },
            Request::Enter => if reply->Entered_0 {
                Walk { waiting: Request::NextEntry, ..w }
            } else {
                Walk { dirs: w.dirs.drop_last(), waiting: Request::CloseDirectory, ..w }
            },
            Request::NextEntry => match reply {
                ReplyView::Entry(name) => Walk { name, waiting: Request::OpenEntry, ..w },
                _ => Walk { waiting: Request::Leave, ..w },
            },
            Request::OpenEntry => Walk { entry_open: true, waiting: Request::Stat, ..w },
            Request::Stat => match kind_of(reply->Mode_0, w.name) {
                EntryKind::File => Walk { entry_open: false, waiting: Request::Visit, ..w },
                EntryKind::Directory => Walk {
                    dirs: w.dirs.push(joined(w.dirs.last(), w.name)),
                    entry_open: false,
                    waiting: Request::Enter,
                    ..w
                },
                EntryKind::Other => Walk {
                    entry_open: false,
                    waiting: Request::CloseEntry,
                    ..w
                },
            },
            Request::Visit | Request::CloseEntry | Request::CloseDirectory => resumed(w),
            Request::Leave => Walk {
                dirs: w.dirs.drop_last(),
                waiting: Request::CloseDirectory,
                ..w
            },
            Request::Finish => w,
        }
    }
}

/// The number of handles that are open and the walk's to release.
pub open spec fn open_handles(w: Walk) -> nat {
    w.dirs.len() + if w.entry_open {
        1nat
    } else {
        0nat
    }
}

/// Whether a request asks the driver to give a handle up: to release it, or
/// to hand it to the visitor, who releases it.
pub open spec fn gives_up_handle(request: Request) -> bool {
    request == Request::Visit || request == Request::CloseEntry || request
        == Request::CloseDirectory
}

/// The number of handles that the answer `reply` reports as opened: one where
/// it answers a request to open.
pub open spec fn opened_by(w: Walk, reply: ReplyView) -> nat {
    if (w.waiting == Request::OpenRoot || w.waiting == Request::OpenEntry) && reply is Opened {
        1
    } else {
        0
    }
}

/// The number of handles given up on the request that follows the answer
/// `reply`.
pub open spec fn given_up_after(w: Walk, reply: ReplyView) -> nat {
    if w.waiting != Request::Finish && gives_up_handle(advanced(w, reply).waiting) {
        1
    } else {
        0
    }
}

/// What holds of a walk at every moment.
pub open spec fn consistent(w: Walk) -> bool {
    &&& w.entry_open <==> w.waiting == Request::Stat
    &&& (w.waiting == Request::Enter || w.waiting == Request::NextEntry || w.waiting
        == Request::OpenEntry || w.waiting == Request::Stat || w.waiting == Request::Visit
        || w.waiting == Request::Leave) ==> w.dirs.len() > 0 && w.failure is None
    &&& w.waiting == Request::OpenRoot ==> w.dirs.len() == 0 && w.failure is None
    &&& w.waiting == Request::CloseEntry && w.failure is None ==> w.dirs.len() > 0
    &&& w.waiting == Request::Finish ==> w.dirs.len() == 0
}

/// The walk after the driver gave the answers `replies`, one after another.
pub open spec fn run(w: Walk, replies: Seq<ReplyView>) -> Walk
    decreases replies.len(),
{
    if replies.len() == 0 {
        w
    } else {
        advanced(run(w, replies.drop_last()), replies.last())
    }
}

/// The number of handles opened in the course of the answers `replies`.
pub open spec fn opened_in(w: Walk, replies: Seq<ReplyView>) -> nat
    decreases replies.len(),
{
    if replies.len() == 0 {
        0
    } else {
        opened_in(w, replies.drop_last()) + opened_by(
            run(w, replies.drop_last()),
            replies.last(),
        )
    }
}

/// The number of handles given up in the course of the answers `replies`.
pub open spec fn given_up_in(w: Walk, replies: Seq<ReplyView>) -> nat
    decreases replies.len(),
{
    if replies.len() == 0 {
        0
    } else {
        given_up_in(w, replies.drop_last()) + given_up_after(
            run(w, replies.drop_last()),
            replies.last(),
        )
    }
}

/// One answer keeps a walk consistent and the account of handles right: the
/// handles open afterwards are those open before, and the one that the
/// answer opened, without the one that the next request gives up.
pub proof fn lemma_advanced(w: Walk, reply: ReplyView)
    requires
        consistent(w),
    ensures
        consistent(advanced(w, reply)),
        open_handles(advanced(w, reply)) + given_up_after(w, reply) == open_handles(w) + opened_by(
            w,
            reply,
        ),
        w.failure is Some ==> advanced(w, reply).failure == w.failure,
        advanced(w, reply).root == w.root,
{
}

/// Whatever the driver answers, and however the walk ends: as many handles
/// are given up as were opened, less those that are still open; a finished
/// walk has none open. Every handle that a walk from the start opened is
/// given up by the time it is finished.
pub proof fn lemma_handles_balance(w: Walk, replies: Seq<ReplyView>)
    requires
        consistent(w),
    ensures
        consistent(run(w, replies)),
        open_handles(run(w, replies)) + given_up_in(w, replies) == open_handles(w) + opened_in(
            w,
            replies,
        ),
        run(w, replies).waiting == Request::Finish ==> open_handles(run(w, replies)) == 0,
        w == starting(w.root) && run(w, replies).waiting == Request::Finish ==> given_up_in(
            w,
            replies,
        ) == opened_in(w, replies),
    decreases replies.len(),
{
    if replies.len() > 0 {
        lemma_handles_balance(w, replies.drop_last());
        lemma_advanced(run(w, replies.drop_last()), replies.last());
    }
}

/// An entry that was read is opened and examined, and then dealt with by its
/// kind: a regular file is handed to the visitor under its path in the
/// innermost open directory, a directory becomes the innermost open directory,
/// and anything else is released.
pub proof fn lemma_entry_dealt_with_by_kind(w: Walk, name: Seq<u8>, mode: u32)
    requires
        consistent(w),
        w.waiting == Request::NextEntry,
    ensures
        ({
            let read = advanced(w, ReplyView::Entry(name));
            let opened = advanced(read, ReplyView::Opened);
            let after = advanced(opened, ReplyView::Mode(mode));
            &&& read.waiting == Request::OpenEntry
            &&& opened.waiting == Request::Stat
            &&& after.name == name
            &&& after.failure is None
            &&& match kind_of(mode, name) {
                EntryKind::File => after.waiting == Request::Visit && after.dirs == w.dirs,
                EntryKind::Directory => after.waiting == Request::Enter && after.dirs
                    == w.dirs.push(joined(w.dirs.last(), name)),
                EntryKind::Other => after.waiting == Request::CloseEntry && after.dirs == w.dirs,
            }
        }),
{
}

/// The walk of an empty directory visits nothing and ends well.
pub proof fn lemma_empty_root(root: Seq<u8>)
    ensures
        ({
            let opened = advanced(starting(root), ReplyView::Opened);
            let entered = advanced(opened, ReplyView::Entered(true));
            let read = advanced(entered, ReplyView::NoMoreEntries);
            let left = advanced(read, ReplyView::Done);
            let closed = advanced(left, ReplyView::Done);
            &&& opened.waiting == Request::Enter
            &&& entered.waiting == Request::NextEntry
            &&& read.waiting == Request::Leave
            &&& left.waiting == Request::CloseDirectory
            &&& closed.waiting == Request::Finish
            &&& closed.failure is None
        }),
{
    let opened = advanced(starting(root), ReplyView::Opened);
    assert(opened.dirs.len() == 1);
    assert(opened.dirs.drop_last().len() == 0);
}

/// A root that cannot be opened ends the walk at once, with an open error
/// and no handle open.
pub proof fn lemma_root_not_opened(root: Seq<u8>, reply: ReplyView)
    requires
        !(reply is Opened),
    ensures
        advanced(starting(root), reply).waiting == Request::Finish,
        advanced(starting(root), reply).failure == Some(ErrorKind::Open),
        open_handles(advanced(starting(root), reply)) == 0,
{
}

/// A finished walk stays finished, whatever is answered.
pub proof fn lemma_finished_stays(w: Walk, reply: ReplyView)
    requires
        w.waiting == Request::Finish,
    ensures
        advanced(w, reply) == w,
{
}

/// After a failure nothing is visited, entered or read any more: the requests
/// that follow only release handles, until the walk is over.
pub proof fn lemma_failure_unwinds(w: Walk, reply: ReplyView)
    requires
        consistent(w),
        advanced(w, reply).failure is Some,
    ensures
        advanced(w, reply).waiting == Request::CloseEntry || advanced(w, reply).waiting
            == Request::CloseDirectory || advanced(w, reply).waiting == Request::Finish,
{
}

/// A walk over a directory tree: what is open, and what the driver was asked
/// last.
pub struct Walker {
    root: Vec<u8>,
    dirs: Vec<Vec<u8>>,
    name: Vec<u8>,
    entry_open: bool,
    waiting: Request,
    failure: Option<ErrorKind>,
}

impl View for Walker {
    type V = Walk;

    closed spec fn view(&self) -> Walk {
        Walk {
            root: self.root@,
            dirs: self.dirs@.map_values(|dir: Vec<u8>| dir@),
            name: self.name@,
            entry_open: self.entry_open,
            waiting: self.waiting,
            failure: self.failure,
        }
    }
}

impl Walker {
    /// Whether the walk is in a state that its operations keep up.
    pub open spec fn wf(&self) -> bool {
        consistent(self@)
    }

    /// A walk of the tree under `root`. Its first request is to open the
    /// root.
    pub fn new(root: Vec<u8>) -> (walker: Walker)
        ensures
            walker.wf(),
            walker@ == starting(root@),
    {
        let walker = Walker {
            root,
            dirs: Vec::new(),
            name: Vec::new(),
            entry_open: false,
            waiting: Request::OpenRoot,
            failure: None,
        };
        assert(walker@.dirs =~= Seq::empty());
        walker
    }

    /// What the driver is to do next.
    pub fn request(&self) -> (request: Request)
        ensures
            request == self@.waiting,
    {
        self.waiting
    }

    /// Whether the walk is over.
    pub fn is_finished(&self) -> (finished: bool)
        ensures
            finished == (self@.waiting == Request::Finish),
    {
        self.waiting == Request::Finish
    }

    /// How the walk went, once it is over: well, or with the first failure.
    pub fn outcome(&self) -> (outcome: Result<(), ErrorKind>)
        ensures
            outcome == match self@.failure {
                Some(kind) => Err::<(), ErrorKind>(kind),
                None => Ok::<(), ErrorKind>(()),
            },
    {
        match self.failure {
            Some(kind) => Err(kind),
            None => Ok(()),
        }
    }

    /// The number of directories whose handles are open.
    pub fn depth(&self) -> (depth: usize)
        ensures
            depth == self@.dirs.len(),
    {
        self.dirs.len()
    }

    /// The path of the innermost open directory.
    pub fn directory(&self) -> (path: &[u8])
        requires
            self@.dirs.len() > 0,
        ensures
            path@ == self@.dirs.last(),
    {
        self.dirs[self.dirs.len() - 1].as_slice()
    }

    /// The name of the entry last read.
    pub fn entry_name(&self) -> (name: &[u8])
        ensures
            name@ == self@.name,
    {
        self.name.as_slice()
    }

    /// The path of the entry last read: its name behind the path of the
    /// innermost open directory.
    pub fn entry_path(&self) -> (path: Vec<u8>)
        requires
            self@.dirs.len() > 0,
        ensures
            path@ == joined(self@.dirs.last(), self@.name),
    {
        join(self.dirs[self.dirs.len() - 1].as_slice(), self.name.as_slice())
    }

    /// Turns to the way out: releases what is open, one handle per request.
    fn unwind(&mut self) -> (request: Request)
        ensures
            final(self)@ == unwound(old(self)@),
            request == final(self)@.waiting,
    {
        if self.entry_open {
            self.entry_open = false;
            self.waiting = Request::CloseEntry;
        } else if self.dirs.len() > 0 {
            self.dirs.pop();
            self.waiting = Request::CloseDirectory;
            assert(self@.dirs =~= old(self)@.dirs.drop_last());
        } else {
            self.waiting = Request::Finish;
        }
        self.waiting
    }

    /// Goes on when an entry or a directory is done with.
    fn resume(&mut self) -> (request: Request)
        ensures
            final(self)@ == resumed(old(self)@),
            request == final(self)@.waiting,
    {
        if self.failure.is_some() {
            self.unwind()
        } else {
            if self.dirs.len() > 0 {
                self.waiting = Request::NextEntry;
            } else {
                self.waiting = Request::Finish;
            }
            self.waiting
        }
    }

    /// Releases the innermost open directory next.
    fn close_directory(&mut self) -> (request: Request)
        requires
            old(self)@.dirs.len() > 0,
        ensures
            final(self)@ == (Walk {
                dirs: old(self)@.dirs.drop_last(),
                waiting: Request::CloseDirectory,
                ..old(self)@
            }),
            request == Request::CloseDirectory,
    {
        self.dirs.pop();
        self.waiting = Request::CloseDirectory;
        assert(self@.dirs =~= old(self)@.dirs.drop_last());
        self.waiting
    }

    /// Takes the driver's answer to the last request and says what to do
    /// next. An answer that does not fit the request counts as its failure.
    /// After a failure the requests that follow release what is open, and
    /// nothing else; a walk that is over stays so.
    pub fn reply(&mut self, reply: Reply) -> (request: Request)
        requires
            old(self).wf(),
        ensures
            final(self).wf(),
            final(self)@ == advanced(old(self)@, reply@),
            request == final(self)@.waiting,
    {
        proof {
            lemma_advanced(self@, reply@);
        }
        match (self.waiting, reply) {
            (Request::Finish, _) => Request::Finish,
            (Request::OpenRoot, Reply::Opened) => {
                let root = copy_of(&self.root);
                self.dirs.push(root);
                self.waiting = Request::Enter;
                assert(self@.dirs =~= seq![old(self)@.root]);
                self.waiting
            },
            (Request::Enter, Reply::Entered(walk)) => {
                if walk {
                    self.waiting = Request::NextEntry;
                    self.waiting
                } else {
                    self.close_directory()
                }
            },
            (Request::NextEntry, Reply::Entry(name)) => {
                self.name = name;
                self.waiting = Request::OpenEntry;
                self.waiting
            },
            (Request::NextEntry, Reply::NoMoreEntries) => {
                self.waiting = Request::Leave;
                self.waiting
            },
            (Request::OpenEntry, Reply::Opened) => {
                self.entry_open = true;
                self.waiting = Request::Stat;
                self.waiting
            },
            (Request::Stat, Reply::Mode(mode)) => {
                match classify(mode, self.name.as_slice()) {
                    EntryKind::File => {
                        self.entry_open = false;
                        self.waiting = Request::Visit;
                    },
                    EntryKind::Directory => {
                        let path = self.entry_path();
                        self.dirs.push(path);
                        self.entry_open = false;
                        self.waiting = Request::Enter;
                        assert(self@.dirs =~= old(self)@.dirs.push(
                            joined(old(self)@.dirs.last(), old(self)@.name),
                        ));
                    },
                    EntryKind::Other => {
                        self.entry_open = false;
                        self.waiting = Request::CloseEntry;
                    },
                }
                self.waiting
            },
            (Request::Visit, Reply::Done) => self.resume(),
            (Request::CloseEntry, Reply::Done) => self.resume(),
            (Request::CloseDirectory, Reply::Done) => self.resume(),
            (Request::Leave, Reply::Done) => self.close_directory(),
            (waiting, _) => {
                if self.failure.is_none() {
                    self.failure = Some(
                        match waiting {
                            Request::OpenRoot | Request::OpenEntry => ErrorKind::Open,
                            _ => ErrorKind::Io,
                        },
                    );
                }
                self.unwind()
            },
        }
    }

}

/// A copy of `bytes`.
fn copy_of(bytes: &Vec<u8>) -> (copy: Vec<u8>)
    ensures
        copy@ == bytes@,
{
    let mut copy: Vec<u8> = Vec::new();
    let mut i: usize = 0;
    while i < bytes.len()
        invariant
            i <= bytes@.len(),
            copy@ == bytes@.take(i as int),
        decreases bytes@.len() - i,
    {
        copy.push(bytes[i]);
        i += 1;
        assert(copy@ =~= bytes@.take(i as int));
    }
    assert(bytes@.take(bytes@.len() as int) =~= bytes@);
    copy
}

} // verus!
