//! What a walk over a directory tree decides: which extension a path has and
//! what kind of entry a mode word stands for.

use vstd::prelude::*;
use vstd::std_specs::iter::IteratorSpec;
use vstd::string::StrSliceExecFns;

verus! {

/// The index of the last `c` in `s`, or -1 where there is none.
pub open spec fn last_index_of(s: Seq<char>, c: char) -> int
    decreases s.len(),
{
    if s.len() == 0 {
        -1
    } else if s.last() == c {
        s.len() - 1
    } else {
        last_index_of(s.drop_last(), c)
    }
}

/// `path` without what follows its last component: separators at the end,
/// and components at the end that are a lone `.`.
pub open spec fn trimmed(path: Seq<char>) -> Seq<char>
    decreases path.len(),
{
    if path.len() > 0 && path.last() == '/' {
        trimmed(path.drop_last())
    } else if path.len() >= 2 && path.last() == '.' && path[path.len() - 2] == '/' {
        trimmed(path.drop_last())
    } else {
        path
    }
}

/// The last component of `path`: what stands behind the last separator once
/// the path is trimmed.
pub open spec fn file_name(path: Seq<char>) -> Seq<char> {
    let t = trimmed(path);
    t.subrange(last_index_of(t, '/') + 1, t.len() as int)
}

/// The extension of `path`: what follows the last dot of its file name, and
/// nothing where the name has no dot.
pub open spec fn extension_of(path: Seq<char>) -> Seq<char> {
    let name = file_name(path);
    let dot = last_index_of(name, '.');
    if dot < 0 {
        Seq::empty()
    } else {
        name.subrange(dot + 1, name.len() as int)
    }
}

/// The last `c` of `s` stands at `at` where `c` stands there and nowhere
/// behind; there is none where `at` is -1 and `c` stands nowhere.
pub proof fn lemma_last_index_of(s: Seq<char>, c: char, at: int)
    requires
        -1 <= at < s.len(),
        at >= 0 ==> s[at] == c,
        forall|j: int| at < j < s.len() ==> s[j] != c,
    ensures
        last_index_of(s, c) == at,
    decreases s.len(),
{
    if s.len() > 0 && s.last() != c {
        lemma_last_index_of(s.drop_last(), c, at);
    }
}

/// The characters of `s`, one by one.
pub fn chars_of(s: &str) -> (chars: Vec<char>)
    ensures
        chars@ == s@,
{
    let mut chars: Vec<char> = Vec::new();
    let mut it = s.chars();
    loop
        invariant
            chars@.len() <= s@.len(),
            it.remaining() == s@.subrange(chars@.len() as int, s@.len() as int),
            chars@ == s@.subrange(0, chars@.len() as int),
        decreases s@.len() - chars@.len(),
    {
        match it.next() {
            Some(c) => {
                let ghost before = chars@;
                chars.push(c);
                assert(chars@ =~= s@.subrange(0, before.len() as int + 1));
                assert(it.remaining() =~= s@.subrange(chars@.len() as int, s@.len() as int));
            },
            None => {
                assert(chars@ =~= s@);
                return chars;
            },
        }
    }
}

/// Where the trimmed path ends: the number of characters of `chars` that are
/// left when separators and lone dots at the end are taken off.
fn trimmed_len(chars: &Vec<char>) -> (end: usize)
    ensures
        end <= chars@.len(),
        trimmed(chars@) == chars@.take(end as int),
{
    let mut end: usize = chars.len();
    assert(chars@.take(end as int) =~= chars@);
    loop
        invariant_except_break
            end <= chars@.len(),
            trimmed(chars@) == trimmed(chars@.take(end as int)),
        ensures
            end <= chars@.len(),
            trimmed(chars@) == chars@.take(end as int),
        decreases end,
    {
        let ghost front = chars@.take(end as int);
        if end > 0 && chars[end - 1] == '/' {
            assert(front.drop_last() =~= chars@.take(end - 1));
            end -= 1;
        } else if end >= 2 && chars[end - 1] == '.' && chars[end - 2] == '/' {
            assert(front.drop_last() =~= chars@.take(end - 1));
            end -= 1;
        } else {
            break ;
        }
    }
    end
}

/// The index behind the last `c` among the characters from `from` up to
/// `end`, or `from` where `c` is not among them.
fn behind_last(chars: &Vec<char>, from: usize, end: usize, c: char) -> (at: usize)
    requires
        from <= end <= chars@.len(),
    ensures
        from <= at <= end,
        at == from + last_index_of(chars@.subrange(from as int, end as int), c) + 1,
{
    let ghost part = chars@.subrange(from as int, end as int);
    let mut at: usize = end;
    while at > from && chars[at - 1] != c
        invariant
            from <= at <= end <= chars@.len(),
            part == chars@.subrange(from as int, end as int),
            forall|j: int| at - from <= j < part.len() ==> part[j] != c,
        decreases at,
    {
        at -= 1;
    }
    proof {
        if at > from {
            assert(part[at - from - 1] == chars@[at - 1]);
        }
        lemma_last_index_of(part, c, at - from - 1);
    }
    at
}

/// The extension of the file at `path`: what follows the last dot of the
/// file's name. It is empty where the name has no dot and where the name ends
/// in its last dot. A name that begins with its only dot, as the names of
/// hidden files do, has all that follows the dot for its extension.
/// Separators at the end of the path, and components that are a lone dot, do
/// not count towards the name.
pub fn extension(path: &str) -> (ext: String)
    ensures
        ext@ == extension_of(path@),
{
    let chars = chars_of(path);
    let end = trimmed_len(&chars);
    let start = behind_last(&chars, 0, end, '/');
    let dot = behind_last(&chars, start, end, '.');
    proof {
        let t = trimmed(path@);
        assert(chars@.subrange(0, end as int) =~= t);
        assert(chars@.subrange(start as int, end as int) =~= file_name(path@));
    }
    if dot == start {
        // no dot in the name
        String::new()
    } else {
        let ext = path.substring_char(dot, end);
        assert(ext@ =~= extension_of(path@));
        ext.to_owned()
    }
}

/// The bits of a mode word that say what kind of file it is.
pub const S_IFMT: u32 = 0o170000;

/// The file type bits of a regular file.
pub const S_IFREG: u32 = 0o100000;

/// The file type bits of a directory.
pub const S_IFDIR: u32 = 0o040000;

/// The byte that separates the components of a path.
pub const SEPARATOR: u8 = 0x2F;

/// The byte of a dot.
pub const DOT: u8 = 0x2E;

/// What an entry of a directory is to the walk.
#[derive(Clone, Copy, PartialEq, Eq, Structural, Debug)]
pub enum EntryKind {
    /// A regular file: it is visited.
    File,
    /// A directory other than `.` and `..`: it is walked.
    Directory,
    /// Anything else: it is passed over.
    Other,
}

/// Whether `name` is one of the two entries that every directory has for
/// itself and for its parent.
pub open spec fn is_dot_entry(name: Seq<u8>) -> bool {
    name == seq![DOT] || name == seq![DOT, DOT]
}

/// What the entry `name` whose mode word is `mode` is to the walk.
pub open spec fn kind_of(mode: u32, name: Seq<u8>) -> EntryKind {
    let bits = mode & S_IFMT;
    if bits == S_IFREG {
        EntryKind::File
    } else if bits == S_IFDIR && !is_dot_entry(name) {
        EntryKind::Directory
    } else {
        EntryKind::Other
    }
}

/// The path of the entry `name` of the directory `dir`: `name` behind `dir`
/// and a separator, which is left out where `dir` is empty or ends in one;
/// `name` alone where it starts at the root.
pub open spec fn joined(dir: Seq<u8>, name: Seq<u8>) -> Seq<u8> {
    if name.len() > 0 && name[0] == SEPARATOR {
        name
    } else if dir.len() > 0 && dir.last() != SEPARATOR {
        dir + seq![SEPARATOR] + name
    } else {
        dir + name
    }
}

/// The file type bits of `mode`, as nix's `SFlag::from_bits_truncate` keeps
/// them and `bits` hands them out: of a mode word the bits of `S_IFMT` are
/// kept, which on Linux are 0o170000, and the others are cleared.
#[verifier::external_body]
fn file_type_bits(mode: u32) -> (bits: u32)
    ensures
        bits == mode & S_IFMT,
{
    nix::sys::stat::SFlag::from_bits_truncate(mode).bits()
}

/// What the entry `name` whose mode word is `mode` is to the walk: a regular
/// file, a directory to walk, or something to pass over. The entries `.` and
/// `..` are passed over.
pub fn classify(mode: u32, name: &[u8]) -> (kind: EntryKind)
    ensures
        kind == kind_of(mode, name@),
{
    let bits = file_type_bits(mode);
    if bits == S_IFREG {
        EntryKind::File
    } else if bits == S_IFDIR {
        let dot = name.len() == 1 && name[0] == DOT;
        let dots = name.len() == 2 && name[0] == DOT && name[1] == DOT;
        proof {
            if dot {
                assert(name@ =~= seq![DOT]);
            }
            if dots {
                assert(name@ =~= seq![DOT, DOT]);
            }
            if is_dot_entry(name@) {
                assert(seq![DOT].len() == 1 && seq![DOT, DOT].len() == 2);
                assert(seq![DOT][0] == DOT && seq![DOT, DOT][0] == DOT && seq![DOT, DOT][1]
                    == DOT);
            }
        }
        if dot || dots {
            EntryKind::Other
        } else {
            EntryKind::Directory
        }
    } else {
        EntryKind::Other
    }
}

/// Appends the bytes `src` to `out`.
fn push_bytes(out: &mut Vec<u8>, src: &[u8])
    ensures
        final(out)@ == old(out)@ + src@,
{
    let mut i: usize = 0;
    assert(out@ =~= old(out)@ + src@.take(0));
    while i < src.len()
        invariant
            i <= src@.len(),
            out@ == old(out)@ + src@.take(i as int),
        decreases src@.len() - i,
    {
        out.push(src[i]);
        i += 1;
        assert(out@ =~= old(out)@ + src@.take(i as int));
    }
    assert(src@.take(src@.len() as int) =~= src@);
}

/// The path of the entry `name` of the directory `dir`.
pub fn join(dir: &[u8], name: &[u8]) -> (path: Vec<u8>)
    ensures
        path@ == joined(dir@, name@),
{
    let mut path: Vec<u8> = Vec::new();
    if name.len() > 0 && name[0] == SEPARATOR {
        push_bytes(&mut path, name);
        assert(path@ =~= name@);
    } else {
        push_bytes(&mut path, dir);
        if dir.len() > 0 && dir[dir.len() - 1] != SEPARATOR {
            path.push(SEPARATOR);
        }
        push_bytes(&mut path, name);
        assert(path@ =~= joined(dir@, name@));
    }
    path
}

} // verus!
