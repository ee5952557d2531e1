use log_scouter::detect::default_extractor;
use log_scouter::extractor::Extractor;
use log_scouter::models::LogEntry;
use log_scouter::parser::{
    build_entries, build_entries_multi, file_line_count_hint, file_size, file_text, first_lines,
    EntryBuilder, LineKind, Progress,
};
use log_scouter::sorting::sort_texts;
use log_scouter::text::{
    blank, char_is_alphanumeric, char_is_digit, char_is_hex_digit, char_is_letter, char_is_space,
    decimal_text, is_text_less, join_strings, join_strs, list_has, parse_u64, string_of,
    text_contains, text_ends_with, text_lines, text_split, text_split_once, text_starts_with,
    text_strip_prefix, text_strip_suffix, text_words, trim, trim_end_char, trim_start_char,
};

fn owned(list: &[&str]) -> Vec<String> {
    list.iter().map(|text| text.to_string()).collect()
}

const TEXTS: [&str; 14] = [
    "",
    " ",
    "a",
    "one two  three",
    "\ttabbed\u{a0}and\u{3000}wide ",
    "a\nb",
    "a\r\nb\r\n",
    "\n\n",
    "line\r",
    "key=value=more",
    "///path//",
    "naïve ΑΒΓ",
    "ab12",
    "zzz\u{1f600}",
];

#[test]
fn characters_are_classed_as_std_classes_them() {
    for n in 0..0x11_0000u32 {
        if let Some(c) = char::from_u32(n) {
            assert_eq!(char_is_space(c), c.is_whitespace(), "{n:x}");
            assert_eq!(char_is_digit(c), c.is_ascii_digit(), "{n:x}");
            assert_eq!(char_is_hex_digit(c), c.is_ascii_hexdigit(), "{n:x}");
            assert_eq!(char_is_letter(c), c.is_ascii_alphabetic(), "{n:x}");
            assert_eq!(char_is_alphanumeric(c), c.is_ascii_alphanumeric(), "{n:x}");
        }
    }
}

#[test]
fn texts_are_cut_as_std_cuts_them() {
    for text in TEXTS {
        assert_eq!(trim(text), text.trim());
        assert_eq!(blank(text), text.trim().is_empty());
        assert_eq!(text_lines(text), text.lines().collect::<Vec<_>>());
        assert_eq!(
            text_words(text),
            text.split_whitespace().collect::<Vec<_>>()
        );
        assert_eq!(text_split(text, '/'), text.split('/').collect::<Vec<_>>());
        assert_eq!(trim_start_char(text, '/'), text.trim_start_matches('/'));
        assert_eq!(trim_end_char(text, '/'), text.trim_end_matches('/'));
        for part in ["", "a", "=", "//", "line", "ΑΒ", " two"] {
            assert_eq!(text_starts_with(text, part), text.starts_with(part));
            assert_eq!(text_ends_with(text, part), text.ends_with(part));
            assert_eq!(text_contains(text, part), text.contains(part));
            assert_eq!(text_strip_prefix(text, part), text.strip_prefix(part));
            assert_eq!(text_strip_suffix(text, part), text.strip_suffix(part));
            assert_eq!(text_split_once(text, part), text.split_once(part));
        }
        for other in TEXTS {
            assert_eq!(is_text_less(text, other), text < other);
        }
    }
}

#[test]
fn texts_are_joined_listed_and_sorted() {
    assert_eq!(join_strs(&["a", "b", "c"], ", "), "a, b, c");
    assert_eq!(join_strings(&owned(&["x"]), "--"), "x");
    assert_eq!(join_strings(&[], "--"), "");
    assert!(list_has(&owned(&["a", "b"]), "b"));
    assert!(!list_has(&owned(&["a", "b"]), "c"));
    assert_eq!(string_of(&['a', 'b', 'c'], 1, 3), "bc");
    assert_eq!(
        sort_texts(owned(&["b", "a", "é", "B", "a"])),
        ["B", "a", "a", "b", "é"]
    );
}

#[test]
fn numbers_are_written_and_read() {
    for n in [0, 7, 10, 1999, u64::MAX] {
        assert_eq!(decimal_text(n), n.to_string());
        assert_eq!(parse_u64(&n.to_string()), Some(n));
    }
    for text in ["", "+", "-1", "12x", "18446744073709551616", "007", " 1"] {
        assert_eq!(parse_u64(text), text.parse::<u64>().ok(), "{text:?}");
    }
}

#[test]
fn the_first_lines_of_bytes_are_read_lossily() {
    assert_eq!(
        first_lines(b"one\r\ntwo\n\xff\xfe\nfour", 10),
        ["one", "two", "\u{fffd}\u{fffd}", "four"]
    );
    assert_eq!(first_lines(b"one\ntwo\nthree\n", 2), ["one", "two"]);
    assert!(first_lines(b"", 5).is_empty());
    assert_eq!(first_lines(b"a\n\nb\n", 9), ["a", "", "b"]);
}

#[test]
fn progress_is_told_every_4096_lines() {
    let mut progress = Progress::new();
    assert_eq!(progress.advance("naïve"), Some(7));
    for _ in 1..4096 {
        assert_eq!(progress.advance("abc"), None);
    }
    assert_eq!(progress.advance(""), Some(7 + 4095 * 4 + 1));
}

#[test]
fn an_unknown_size_counts_as_none() {
    assert_eq!(file_size(Some(10)), 10);
    assert_eq!(file_size(None), 0);
    assert_eq!(file_line_count_hint(None), 0);
}

fn shown(entries: &[LogEntry]) -> String {
    format!("{entries:?}")
}

const START: &str = "2026-06-16 10:09:43.288 [HOST:h1][SERVER:AppServer][PID:54][THR:1366][Kernel][Trace][UID:0][SID:0][OID:0][D.cpp:394] NetChannel closed";

#[test]
fn a_builder_gives_at_every_point_what_a_whole_parse_gives() {
    let extractor = default_extractor().unwrap();
    let lines = owned(&["preamble", START, "  at f()", "", START, "tail"]);
    let mut builder = EntryBuilder::new();
    for n in 0..lines.len() {
        builder.push_line(&lines[n], &[&extractor]);
        let whole = build_entries(&lines[..n + 1], Some(&extractor));
        let so_far = builder.snapshot();
        assert_eq!(shown(&so_far), shown(&whole), "after {} line(s)", n + 1);
        assert_eq!(
            builder.entry_count() + 1,
            whole.len(),
            "the open entry is not counted"
        );
    }
    let entries = builder.finish();
    assert_eq!(entries.len(), 3);
    let back: Vec<String> = entries
        .iter()
        .flat_map(|entry| entry.raw.split('\n').map(str::to_string).collect::<Vec<_>>())
        .collect();
    assert_eq!(back, lines, "every line is kept");
    for (i, entry) in entries.iter().enumerate() {
        assert_eq!(entry.index, i);
    }
    assert_eq!(entries[1].line_no, 2);
}

#[test]
fn without_a_schema_every_line_is_an_entry() {
    let lines = owned(&["a", "b", "c"]);
    assert_eq!(build_entries(&lines, None).len(), 3);
    let compact =
        Extractor::with_timestamp_format("compact", "<timestamp> <level>: <message>", "%H:%M:%S")
            .unwrap();
    let bracketed = default_extractor().unwrap();
    let mixed = owned(&["10:00:01 WARN: x", "more", START]);
    let entries = build_entries_multi(&mixed, &[&bracketed, &compact]);
    assert_eq!(entries.len(), 2);
    assert_eq!(entries[0].raw, "10:00:01 WARN: x\nmore");
}

#[test]
fn a_line_is_taken_in_for_what_it_is() {
    let plain = LineKind {
        bounded: false,
        starts: false,
        ends: false,
    };
    let start = LineKind {
        starts: true,
        ..plain
    };
    let end = LineKind {
        ends: true,
        ..plain
    };
    let between = LineKind {
        bounded: true,
        ..plain
    };
    let mut builder = EntryBuilder::new();
    builder.take_in("stray\r\n", plain);
    builder.take_in("one", start);
    builder.take_in("more", plain);
    builder.take_in("last", end);
    builder.take_in("  ", between);
    builder.take_in("two", start);
    let entries = builder.finish();
    let raws: Vec<&str> = entries.iter().map(|entry| entry.raw.as_str()).collect();
    assert_eq!(raws, ["stray", "one\nmore\nlast", "two"]);
    assert_eq!(entries[2].line_no, 6);
}

#[test]
fn entries_grow_with_their_lines() {
    let bounded = LineKind {
        bounded: true,
        starts: false,
        ends: false,
    };
    let mut builder = EntryBuilder::new();
    builder.take_in("", bounded);
    builder.take_in("a\r\n", bounded);
    builder.take_in("", bounded);
    builder.take_in("b", LineKind { ends: true, ..bounded });
    builder.take_in(" ", bounded);
    builder.take_in("c", bounded);
    let entries = builder.finish();
    let seen: Vec<(usize, usize, u16, &str)> = entries
        .iter()
        .map(|entry| (entry.index, entry.line_no, entry.source, entry.raw.as_str()))
        .collect();
    assert_eq!(seen, [(0, 2, 0, "a\n\nb"), (1, 6, 0, "c")]);
    assert_eq!(file_text(b"a\xffb"), "a\u{fffd}b");
}

#[test]
fn the_schemas_may_change_between_pushes() {
    let bracketed = default_extractor().unwrap();
    let mut block = Extractor::new("block", "<message>").unwrap();
    block.entry_start = "^BEGIN".to_string();
    block.entry_end = "^END".to_string();
    block.compile().unwrap();
    let mut builder = EntryBuilder::new();
    builder.push_line("", &[&block]);
    builder.push_line("BEGIN\r\n", &[&block]);
    builder.push_line("", &[]);
    builder.push_line("END", &[&block]);
    builder.push_line(" ", &[&block]);
    builder.push_line("", &[&bracketed]);
    builder.push_line("more", &[&bracketed]);
    let seen: Vec<(usize, usize, String)> = builder
        .finish()
        .into_iter()
        .map(|entry| (entry.index, entry.line_no, entry.raw))
        .collect();
    assert_eq!(
        seen,
        [
            (0, 2, "BEGIN".to_string()),
            (1, 3, "\nEND".to_string()),
            (2, 6, "\nmore".to_string())
        ]
    );
}
