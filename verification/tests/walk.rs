use codesize::walk::{ErrorKind, Reply, Request, Walker};

const FILE: u32 = 0o100644;
const DIR: u32 = 0o040755;
const LINK: u32 = 0o120777;

enum Node {
    File,
    Link,
    Dots,
    Dir(Vec<(&'static str, Node)>),
}

fn dir(mut entries: Vec<(&'static str, Node)>) -> Node {
    entries.insert(0, ("..", Node::Dots));
    entries.insert(0, (".", Node::Dots));
    Node::Dir(entries)
}

fn tree() -> Node {
    dir(vec![
        ("a.rs", Node::File),
        ("src", dir(vec![
            ("main.rs", Node::File),
            ("deep", dir(vec![("x.go", Node::File), ("ln", Node::Link)])),
            ("lib.rs", Node::File),
        ])),
        ("empty", dir(vec![])),
        ("README", Node::File),
    ])
}

struct Outcome {
    result: Result<(), ErrorKind>,
    opened: usize,
    given_up: usize,
    most_open: usize,
    visited: Vec<String>,
    entered: Vec<String>,
    left: usize,
    steps: usize,
}

/// Drives a walk over `root` as a driver with real handles would, and counts
/// what it opens and gives up. The request numbered `fail_at` fails; the
/// directories named in `declined` are not to be walked.
fn drive(root: &Node, fail_at: Option<usize>, declined: &[&str]) -> Outcome {
    let mut walker = Walker::new(b"top".to_vec());
    let mut stack: Vec<(&Vec<(&'static str, Node)>, usize)> = Vec::new();
    let mut pending: Option<&Node> = None;
    let mut out = Outcome {
        result: Ok(()),
        opened: 0,
        given_up: 0,
        most_open: 0,
        visited: Vec::new(),
        entered: Vec::new(),
        left: 0,
        steps: 0,
    };
    let mut request = walker.request();
    assert_eq!(request, Request::OpenRoot);
    while request != Request::Finish {
        assert!(!walker.is_finished());
        out.steps += 1;
        assert!(out.steps < 10_000);
        let fails = fail_at == Some(out.steps);
        let reply = match request {
            Request::OpenRoot => {
                if fails {
                    Reply::Failed
                } else {
                    out.opened += 1;
                    pending = Some(root);
                    Reply::Opened
                }
            }
            Request::Enter => {
                if let Some(Node::Dir(entries)) = pending.take() {
                    stack.push((entries, 0));
                } else {
                    panic!("entered what is no directory");
                }
                assert_eq!(walker.depth(), stack.len());
                let path = String::from_utf8(walker.directory().to_vec()).unwrap();
                if fails {
                    Reply::Failed
                } else {
                    let walk = !declined.contains(&path.as_str());
                    out.entered.push(path);
                    Reply::Entered(walk)
                }
            }
            Request::NextEntry => {
                let (entries, next) = stack.last_mut().unwrap();
                if fails {
                    Reply::Failed
                } else if *next < entries.len() {
                    let (name, node) = &entries[*next];
                    *next += 1;
                    pending = Some(node);
                    Reply::Entry(name.as_bytes().to_vec())
                } else {
                    Reply::NoMoreEntries
                }
            }
            Request::OpenEntry => {
                if fails {
                    pending = None;
                    Reply::Failed
                } else {
                    out.opened += 1;
                    Reply::Opened
                }
            }
            Request::Stat => {
                if fails {
                    Reply::Failed
                } else {
                    match pending.unwrap() {
                        Node::File => Reply::Mode(FILE),
                        Node::Link => Reply::Mode(LINK),
                        Node::Dots | Node::Dir(_) => Reply::Mode(DIR),
                    }
                }
            }
            Request::Visit => {
                out.given_up += 1;
                pending = None;
                out.visited.push(String::from_utf8(walker.entry_path()).unwrap());
                if fails {
                    Reply::Failed
                } else {
                    Reply::Done
                }
            }
            Request::CloseEntry => {
                out.given_up += 1;
                pending = None;
                if fails {
                    Reply::Failed
                } else {
                    Reply::Done
                }
            }
            Request::Leave => {
                if fails {
                    Reply::Failed
                } else {
                    out.left += 1;
                    Reply::Done
                }
            }
            Request::CloseDirectory => {
                out.given_up += 1;
                stack.pop().unwrap();
                assert_eq!(walker.depth(), stack.len());
                if fails {
                    Reply::Failed
                } else {
                    Reply::Done
                }
            }
            Request::Finish => unreachable!(),
        };
        out.most_open = usize::max(out.most_open, out.opened - out.given_up);
        request = walker.reply(reply);
        assert_eq!(request, walker.request());
    }
    assert!(walker.is_finished());
    assert!(stack.is_empty());
    assert_eq!(walker.depth(), 0);
    out.result = walker.outcome();
    out
}

#[test]
fn a_walk_visits_every_regular_file_once_depth_first() {
    let out = drive(&tree(), None, &[]);
    assert_eq!(out.result, Ok(()));
    assert_eq!(
        out.visited,
        vec![
            "top/a.rs",
            "top/src/main.rs",
            "top/src/deep/x.go",
            "top/src/lib.rs",
            "top/README"
        ]
    );
}

#[test]
fn a_walk_enters_and_leaves_every_directory() {
    let out = drive(&tree(), None, &[]);
    assert_eq!(out.entered, vec!["top", "top/src", "top/src/deep", "top/empty"]);
    assert_eq!(out.left, 4);
}

#[test]
fn a_walk_gives_up_every_handle_it_opened() {
    let out = drive(&tree(), None, &[]);
    // the root, and one handle for each of the 17 entries, the dot entries among them
    assert_eq!(out.opened, 18);
    assert_eq!(out.given_up, 18);
}

#[test]
fn a_walk_holds_no_more_handles_than_the_tree_is_deep() {
    let out = drive(&tree(), None, &[]);
    // three directories deep, and the entry being looked at
    assert_eq!(out.most_open, 4);
}

#[test]
fn an_empty_directory_is_walked_without_a_visit() {
    let out = drive(&dir(vec![]), None, &[]);
    assert_eq!(out.result, Ok(()));
    assert!(out.visited.is_empty());
    assert_eq!(out.entered, vec!["top"]);
    assert_eq!(out.opened, 3);
    assert_eq!(out.given_up, 3);
}

#[test]
fn a_root_that_cannot_be_opened_is_an_open_error() {
    let out = drive(&tree(), Some(1), &[]);
    assert_eq!(out.result, Err(ErrorKind::Open));
    assert_eq!(out.opened, 0);
    assert_eq!(out.given_up, 0);
    assert_eq!(out.steps, 1);
    assert!(out.visited.is_empty());
}

#[test]
fn whatever_fails_every_handle_is_given_up() {
    let steps = drive(&tree(), None, &[]).steps;
    assert!(steps > 50);
    for fail_at in 1..=steps {
        let out = drive(&tree(), Some(fail_at), &[]);
        assert!(out.result.is_err(), "request {}", fail_at);
        assert_eq!(out.opened, out.given_up, "request {}", fail_at);
    }
}

#[test]
fn after_a_failure_handles_are_released_and_nothing_else() {
    let steps = drive(&tree(), None, &[]).steps;
    for fail_at in 1..=steps {
        let whole = drive(&tree(), None, &[]);
        let out = drive(&tree(), Some(fail_at), &[]);
        // what was visited before the failure is a front of what a whole walk visits
        assert!(out.visited.len() <= whole.visited.len());
        assert_eq!(out.visited[..], whole.visited[..out.visited.len()]);
        // the walk is over after at most one more request per open handle
        assert!(out.steps <= fail_at + 4, "request {}", fail_at);
    }
}

#[test]
fn an_entry_that_cannot_be_opened_is_an_open_error() {
    // OpenRoot, Enter, NextEntry, OpenEntry
    let out = drive(&tree(), Some(4), &[]);
    assert_eq!(out.result, Err(ErrorKind::Open));
    assert_eq!(out.opened, 1);
    assert_eq!(out.given_up, 1);
}

#[test]
fn a_directory_that_cannot_be_read_is_an_io_error() {
    // OpenRoot, Enter, NextEntry
    let out = drive(&tree(), Some(3), &[]);
    assert_eq!(out.result, Err(ErrorKind::Io));
    assert_eq!(out.opened, 1);
    assert_eq!(out.given_up, 1);
}

#[test]
fn an_entry_that_cannot_be_examined_is_an_io_error_and_is_released() {
    // OpenRoot, Enter, NextEntry, OpenEntry, Stat
    let out = drive(&tree(), Some(5), &[]);
    assert_eq!(out.result, Err(ErrorKind::Io));
    assert_eq!(out.opened, 2);
    assert_eq!(out.given_up, 2);
}

#[test]
fn a_directory_that_is_declined_is_released_unread() {
    let out = drive(&tree(), None, &["top/src"]);
    assert_eq!(out.result, Ok(()));
    assert_eq!(out.visited, vec!["top/a.rs", "top/README"]);
    assert_eq!(out.entered, vec!["top", "top/src", "top/empty"]);
    assert_eq!(out.left, 2);
    assert_eq!(out.opened, out.given_up);
}

#[test]
fn a_root_that_is_declined_ends_the_walk() {
    let out = drive(&tree(), None, &["top"]);
    assert_eq!(out.result, Ok(()));
    assert!(out.visited.is_empty());
    assert_eq!(out.opened, 1);
    assert_eq!(out.given_up, 1);
    assert_eq!(out.left, 0);
}

#[test]
fn the_requests_of_a_small_walk_come_in_order() {
    let mut walker = Walker::new(b"/r".to_vec());
    assert_eq!(walker.request(), Request::OpenRoot);
    assert_eq!(walker.reply(Reply::Opened), Request::Enter);
    assert_eq!(walker.directory(), b"/r");
    assert_eq!(walker.reply(Reply::Entered(true)), Request::NextEntry);
    assert_eq!(walker.reply(Reply::Entry(b"f.rs".to_vec())), Request::OpenEntry);
    assert_eq!(walker.entry_name(), b"f.rs");
    assert_eq!(walker.reply(Reply::Opened), Request::Stat);
    assert_eq!(walker.reply(Reply::Mode(FILE)), Request::Visit);
    assert_eq!(walker.entry_path(), b"/r/f.rs".to_vec());
    assert_eq!(walker.reply(Reply::Done), Request::NextEntry);
    assert_eq!(walker.reply(Reply::Entry(b"ln".to_vec())), Request::OpenEntry);
    assert_eq!(walker.reply(Reply::Opened), Request::Stat);
    assert_eq!(walker.reply(Reply::Mode(LINK)), Request::CloseEntry);
    assert_eq!(walker.reply(Reply::Done), Request::NextEntry);
    assert_eq!(walker.reply(Reply::Entry(b"d".to_vec())), Request::OpenEntry);
    assert_eq!(walker.reply(Reply::Opened), Request::Stat);
    assert_eq!(walker.reply(Reply::Mode(DIR)), Request::Enter);
    assert_eq!(walker.depth(), 2);
    assert_eq!(walker.directory(), b"/r/d");
    assert_eq!(walker.reply(Reply::Entered(true)), Request::NextEntry);
    assert_eq!(walker.reply(Reply::NoMoreEntries), Request::Leave);
    assert_eq!(walker.reply(Reply::Done), Request::CloseDirectory);
    assert_eq!(walker.depth(), 1);
    assert_eq!(walker.reply(Reply::Done), Request::NextEntry);
    assert_eq!(walker.reply(Reply::NoMoreEntries), Request::Leave);
    assert_eq!(walker.reply(Reply::Done), Request::CloseDirectory);
    assert_eq!(walker.reply(Reply::Done), Request::Finish);
    assert!(walker.is_finished());
    assert_eq!(walker.outcome(), Ok(()));
}

#[test]
fn an_answer_that_does_not_fit_counts_as_a_failure() {
    let mut walker = Walker::new(b"r".to_vec());
    assert_eq!(walker.reply(Reply::Opened), Request::Enter);
    assert_eq!(walker.reply(Reply::Entered(true)), Request::NextEntry);
    assert_eq!(walker.reply(Reply::Mode(FILE)), Request::CloseDirectory);
    assert_eq!(walker.outcome(), Err(ErrorKind::Io));
    assert_eq!(walker.reply(Reply::Done), Request::Finish);
    assert_eq!(walker.outcome(), Err(ErrorKind::Io));
}

#[test]
fn the_first_failure_is_the_one_reported() {
    let mut walker = Walker::new(b"r".to_vec());
    assert_eq!(walker.reply(Reply::Opened), Request::Enter);
    assert_eq!(walker.reply(Reply::Entered(true)), Request::NextEntry);
    assert_eq!(walker.reply(Reply::Entry(b"x".to_vec())), Request::OpenEntry);
    assert_eq!(walker.reply(Reply::Failed), Request::CloseDirectory);
    assert_eq!(walker.outcome(), Err(ErrorKind::Open));
    // releasing fails too: the handle is gone all the same, and the first failure stays
    assert_eq!(walker.reply(Reply::Failed), Request::Finish);
    assert_eq!(walker.outcome(), Err(ErrorKind::Open));
}

#[test]
fn a_finished_walk_stays_finished() {
    let mut walker = Walker::new(b"r".to_vec());
    assert_eq!(walker.reply(Reply::Failed), Request::Finish);
    assert_eq!(walker.reply(Reply::Opened), Request::Finish);
    assert_eq!(walker.reply(Reply::Done), Request::Finish);
    assert_eq!(walker.reply(Reply::Entry(b"x".to_vec())), Request::Finish);
    assert!(walker.is_finished());
    assert_eq!(walker.depth(), 0);
    assert_eq!(walker.outcome(), Err(ErrorKind::Open));
}
