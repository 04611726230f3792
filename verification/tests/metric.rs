use codesize::metric::{
    count_lines, count_newlines, read_metric, reading_for, CountType, LineCounter, Reading,
    CHUNK_SIZE,
};

fn count_in_chunks(content: &[u8], size: usize) -> u64 {
    let mut counter = LineCounter::new();
    let mut at = 0;
    loop {
        let end = usize::min(content.len(), at + size);
        assert!(counter.has_room_for(end - at));
        let more = counter.feed(&content[at..end]);
        at = end;
        if !more {
            return counter.lines();
        }
    }
}

#[test]
fn an_empty_file_has_no_lines() {
    assert_eq!(count_lines(b""), 0);
    assert_eq!(count_in_chunks(b"", 16), 0);
}

#[test]
fn each_newline_is_a_line() {
    assert_eq!(count_lines(b"one\ntwo\nthree\n"), 3);
    assert_eq!(count_lines(b"\n"), 1);
}

#[test]
fn a_file_of_newlines_only_has_as_many_lines_as_bytes() {
    assert_eq!(count_lines(b"\n\n\n\n\n"), 5);
    assert_eq!(count_lines(&vec![0x0Au8; 1000]), 1000);
}

#[test]
fn other_bytes_make_no_difference() {
    assert_eq!(count_lines(b"\x00\n\xff\xfe\n\r\n\x0b\x0d"), 3);
    assert_eq!(count_lines(&[0x0B, 0x0D, 0x00, 0x1A]), 0);
}

#[test]
fn an_unfinished_last_line_is_not_counted() {
    assert_eq!(count_lines(b"one\ntwo\nthree"), 2);
    assert_eq!(count_lines(b"no newline at all"), 0);
}

#[test]
fn counting_again_gives_the_same() {
    let content = b"a\nbb\nccc\n\ndddd";
    assert_eq!(count_lines(content), count_lines(content));
    assert_eq!(count_lines(content), 4);
}

#[test]
fn the_count_of_a_chunk_is_that_of_its_newlines() {
    assert_eq!(count_newlines(b""), 0);
    assert_eq!(count_newlines(b"\n"), 1);
    assert_eq!(count_newlines(b"ab\ncd\n\nef"), 3);
}

#[test]
fn it_makes_no_difference_where_reads_cut_the_content() {
    let mut content = Vec::new();
    for i in 0..500u32 {
        content.extend_from_slice(format!("line {}\n", i).as_bytes());
        if i % 7 == 0 {
            content.push(b'\n');
        }
    }
    content.extend_from_slice(b"tail");
    let whole = count_lines(&content);
    assert_eq!(whole, 500 + 72);
    for size in [1, 2, 3, 5, 64, 1000, CHUNK_SIZE] {
        assert_eq!(count_in_chunks(&content, size), whole, "chunks of {}", size);
    }
}

#[test]
fn a_short_read_does_not_end_the_file() {
    let mut counter = LineCounter::new();
    assert!(counter.feed(b"a\n"));
    assert!(counter.feed(b"b"));
    assert!(counter.feed(b"\n"));
    assert_eq!(counter.lines(), 2);
    assert!(!counter.feed(b""));
    assert_eq!(counter.lines(), 2);
}

#[test]
fn a_new_counter_has_counted_nothing() {
    let counter = LineCounter::new();
    assert_eq!(counter.lines(), 0);
    assert!(counter.has_room_for(usize::MAX));
}

#[test]
fn the_chunk_size_is_one_hundred_kibibytes() {
    assert_eq!(CHUNK_SIZE, 102_400);
}

#[test]
fn what_is_read_depends_on_what_is_counted() {
    assert_eq!(reading_for(CountType::Files), Reading::Nothing);
    assert_eq!(reading_for(CountType::Bytes), Reading::Size);
    assert_eq!(reading_for(CountType::Lines), Reading::Lines);
}

#[test]
fn a_file_counts_one_whatever_it_holds() {
    assert_eq!(read_metric(CountType::Files, 0), 1);
    assert_eq!(read_metric(CountType::Files, 12345), 1);
    assert_eq!(read_metric(CountType::Files, u64::MAX), 1);
}

#[test]
fn bytes_and_lines_count_what_was_read() {
    assert_eq!(read_metric(CountType::Bytes, 0), 0);
    assert_eq!(read_metric(CountType::Bytes, 4096), 4096);
    assert_eq!(read_metric(CountType::Lines, 17), 17);
    assert_eq!(read_metric(CountType::Lines, u64::MAX), u64::MAX);
}
