use codesize::walker::{chars_of, classify, extension, join, EntryKind, S_IFDIR, S_IFMT, S_IFREG};
use nix::sys::stat::SFlag;
use std::path::Path;

/// What the standard library takes for the extension; of a name that begins
/// with its only dot, for which it takes none, all that follows the dot.
fn expected(path: &str) -> String {
    let path = Path::new(path);
    let name = path.file_name().and_then(|name| name.to_str()).unwrap_or("");
    if name.starts_with('.') && !name[1..].contains('.') {
        return name[1..].to_string();
    }
    path.extension()
        .and_then(|ext| ext.to_str())
        .map(|ext| ext.to_string())
        .unwrap_or_default()
}

#[test]
fn the_extension_follows_the_last_dot() {
    assert_eq!(extension("main.rs"), "rs");
    assert_eq!(extension("src/main.rs"), "rs");
    assert_eq!(extension("archive.tar.gz"), "gz");
    assert_eq!(extension("/usr/lib/libc.so.6"), "6");
}

#[test]
fn a_name_without_a_dot_has_no_extension() {
    assert_eq!(extension("Makefile"), "");
    assert_eq!(extension("src/Makefile"), "");
    assert_eq!(extension(""), "");
}

#[test]
fn a_dot_in_a_directory_name_does_not_count() {
    assert_eq!(extension("conf.d/settings"), "");
    assert_eq!(extension("v1.2/notes.txt"), "txt");
}

#[test]
fn a_hidden_file_has_what_follows_its_dot_for_extension() {
    assert_eq!(extension(".bashrc"), "bashrc");
    assert_eq!(extension("home/.profile"), "profile");
    assert_eq!(extension(".config.json"), "json");
}

#[test]
fn a_name_that_ends_in_a_dot_has_the_empty_extension() {
    assert_eq!(extension("notes."), "");
    assert_eq!(extension("a.b."), "");
}

#[test]
fn extensions_keep_their_case() {
    assert_eq!(extension("README.MD"), "MD");
    assert_eq!(extension("readme.md"), "md");
    assert_ne!(extension("A.RS"), extension("a.rs"));
}

#[test]
fn extensions_may_hold_any_character() {
    assert_eq!(extension("日本.語"), "語");
    assert_eq!(extension("é/ü.ñandú"), "ñandú");
    assert_eq!(extension("a.b c"), "b c");
}

#[test]
fn what_follows_the_last_component_does_not_count() {
    assert_eq!(extension("pkg.d/"), "d");
    assert_eq!(extension("pkg.d//"), "d");
    assert_eq!(extension("pkg.d/."), "d");
    assert_eq!(extension("pkg.d/./"), "d");
    assert_eq!(extension("./"), "");
    assert_eq!(extension("."), "");
    assert_eq!(extension(".."), "");
    assert_eq!(extension("a.b/.."), "");
    assert_eq!(extension("/"), "");
}

#[test]
fn file_names_are_those_of_the_standard_library() {
    let paths = [
        "", ".", "..", "...", "/", "//", "./", "../", "a", "a.", ".a", "a.b", ".a.b", "a..b",
        "a.b.c", "a/b", "a.x/b", "a.x/b.y", "a.x/.b", "a.x/b.", "a.x/", "a.x//", "a.x/.",
        "a.x/./", "a.x/./.", "a.x/..", "a.x/...", "./a.x", "./.", "././a.x", "/a.x", "/.x",
        "/x.", "x/.y.z", "..a", "a/..b", "a/.b.", "a b.c d", "日本.語", ".日本", "x.é/", "/./.",
        "a/./b.c", "a//b.c", "a.b/c/", "a.b/c/.", "..x/", ".x./", "x/y.z/./.",
    ];
    for path in paths {
        assert_eq!(extension(path), expected(path), "{:?}", path);
    }
}

#[test]
fn the_characters_of_a_text_are_read_off_one_by_one() {
    assert_eq!(chars_of(""), Vec::<char>::new());
    assert_eq!(chars_of("a/é.語"), vec!['a', '/', 'é', '.', '語']);
}

#[test]
fn the_file_types_are_those_of_the_system() {
    assert_eq!(S_IFMT, SFlag::S_IFMT.bits());
    assert_eq!(S_IFREG, SFlag::S_IFREG.bits());
    assert_eq!(S_IFDIR, SFlag::S_IFDIR.bits());
    assert_eq!(S_IFMT, SFlag::all().bits());
}

#[test]
fn kinds_are_those_that_the_flags_tell() {
    for mode in (0..0o200000u32).step_by(0o1000).chain([0o100644, 0o040755, 0o120777]) {
        let flags = SFlag::from_bits_truncate(mode);
        let expected = if flags == SFlag::S_IFREG {
            EntryKind::File
        } else if flags == SFlag::S_IFDIR {
            EntryKind::Directory
        } else {
            EntryKind::Other
        };
        assert_eq!(classify(mode, b"name"), expected, "{:o}", mode);
    }
}

#[test]
fn regular_files_are_visited() {
    assert_eq!(classify(0o100644, b"main.rs"), EntryKind::File);
    assert_eq!(classify(0o100000, b"x"), EntryKind::File);
    assert_eq!(classify(0o104755, b"tool"), EntryKind::File);
    assert_eq!(classify(0o100644, b"."), EntryKind::File);
}

#[test]
fn directories_are_walked() {
    assert_eq!(classify(0o040755, b"src"), EntryKind::Directory);
    assert_eq!(classify(0o041777, b"tmp"), EntryKind::Directory);
    assert_eq!(classify(0o040755, b"..."), EntryKind::Directory);
    assert_eq!(classify(0o040755, b".git"), EntryKind::Directory);
    assert_eq!(classify(0o040755, b""), EntryKind::Directory);
}

#[test]
fn the_entries_for_self_and_parent_are_passed_over() {
    assert_eq!(classify(0o040755, b"."), EntryKind::Other);
    assert_eq!(classify(0o040755, b".."), EntryKind::Other);
}

#[test]
fn everything_else_is_passed_over() {
    assert_eq!(classify(0o120777, b"link"), EntryKind::Other);
    assert_eq!(classify(0o010644, b"fifo"), EntryKind::Other);
    assert_eq!(classify(0o020644, b"tty"), EntryKind::Other);
    assert_eq!(classify(0o060644, b"sda"), EntryKind::Other);
    assert_eq!(classify(0o140755, b"sock"), EntryKind::Other);
    assert_eq!(classify(0o000644, b"none"), EntryKind::Other);
    assert_eq!(classify(0o000000, b"zero"), EntryKind::Other);
}

#[test]
fn bits_beyond_the_file_type_make_no_difference() {
    assert_eq!(classify(0o100644 | 0x8000_0000, b"x"), EntryKind::File);
    assert_eq!(classify(0o040755 | 0x0020_0000, b"d"), EntryKind::Directory);
    assert_eq!(classify(0o777, b"x"), EntryKind::Other);
}

#[test]
fn an_entry_is_joined_to_its_directory() {
    assert_eq!(join(b"src", b"main.rs"), b"src/main.rs".to_vec());
    assert_eq!(join(b"src/", b"main.rs"), b"src/main.rs".to_vec());
    assert_eq!(join(b"", b"main.rs"), b"main.rs".to_vec());
    assert_eq!(join(b"/", b"etc"), b"/etc".to_vec());
    assert_eq!(join(b".", b"a"), b"./a".to_vec());
    assert_eq!(join(b"a", b""), b"a/".to_vec());
    assert_eq!(join(b"a", b"/b"), b"/b".to_vec());
}

#[test]
fn joining_is_that_of_the_standard_library() {
    let dirs = ["", ".", "/", "a", "a/", "a/b", "a//", "/a"];
    let names = ["", "x", ".x", "x.y", "/x", "x/y", "."];
    for dir in dirs {
        for name in names {
            let mut path = std::path::PathBuf::from(dir);
            path.push(name);
            assert_eq!(
                join(dir.as_bytes(), name.as_bytes()),
                path.to_str().unwrap().as_bytes().to_vec(),
                "{:?} {:?}",
                dir,
                name
            );
        }
    }
}
