use paperdown::number::{decimal3_of, decimal_of, read_unsigned};
use paperdown::order::{sort_by_key, stands_before};
use paperdown::paths::{
    ancestors_of, find_extension, find_file_name, find_file_stem, find_parent, is_absolute,
    is_pdf_path, join_name, strip_prefix, PathStyle,
};
use paperdown::pieces::{collapsed, lines_of, list_items_of};
use paperdown::scan::{
    backtick_run_len, count_case_insensitive_occurrences, find_matching_backtick_run, find_tag,
    find_tag_end, is_closing_fence_line, line_end_at, opened_fence, tag_starts,
};
use paperdown::text::{
    ascii_alnum, ascii_space, byte_len, lowered, trimmed, white_space, CharClass,
};
use std::path::Path;

const POSIX: PathStyle = PathStyle::Posix;
const WINDOWS: PathStyle = PathStyle::Windows;

fn chars(s: &str) -> Vec<char> {
    s.chars().collect()
}

fn text(v: &[char]) -> String {
    v.iter().collect()
}

#[test]
fn classes_of_characters_are_those_of_unicode_and_ascii() {
    for c in (0..=0x10ffffu32).filter_map(char::from_u32) {
        assert_eq!(white_space(c), c.is_whitespace(), "{c:?}");
        assert_eq!(ascii_space(c), c.is_ascii_whitespace(), "{c:?}");
        assert_eq!(ascii_alnum(c), c.is_ascii_alphanumeric(), "{c:?}");
    }
}

#[test]
fn text_is_trimmed_lowered_and_measured() {
    let s = " \u{a0}A\u{e9}Z\u{3000}\n";
    assert_eq!(text(trimmed(&chars(s), CharClass::Space)), s.trim());
    assert_eq!(text(&lowered(&chars(s))), s.to_ascii_lowercase());
    assert_eq!(byte_len(&chars(s)), s.len());
    assert_eq!(text(trimmed(&chars("**_a_*"), CharClass::Emphasis)), "a");
}

#[test]
fn text_is_cut_into_lines_and_words() {
    for s in ["", "a", "a\n", "a\r\nb", "\n\n", "a\rb\r", "x\n\r\ny\r"] {
        let got: Vec<String> = lines_of(&chars(s)).iter().map(|l| text(l)).collect();
        let expected: Vec<&str> = s.lines().collect();
        assert_eq!(got, expected, "{s:?}");
    }
    for s in ["", "  ", " a\u{2003}b\n\nc ", "a b"] {
        let expected = s.split_whitespace().collect::<Vec<_>>().join(" ");
        let once = collapsed(&chars(s));
        assert_eq!(text(&once), expected);
        assert_eq!(collapsed(&once), once);
    }
    let s = "a, b;;c,";
    let got: Vec<String> = list_items_of(&chars(s)).iter().map(|l| text(l)).collect();
    assert_eq!(got, s.split([',', ';']).collect::<Vec<_>>());
}

#[test]
fn numbers_are_written_and_read() {
    for n in [0, 7, 10, 42, 999, 1000, usize::MAX] {
        assert_eq!(text(&decimal_of(n)), n.to_string());
        assert_eq!(text(&decimal3_of(n)), format!("{n:03}"));
    }
    for s in ["0", "18446744073709551615", "18446744073709551616", "+5", "-5", "", "+", "1a", " 1", "00012"] {
        assert_eq!(read_unsigned(&chars(s), 10, u64::MAX), s.parse::<u64>().ok(), "{s:?}");
        assert_eq!(
            read_unsigned(&chars(s), 16, u32::MAX as u64),
            u32::from_str_radix(s, 16).ok().map(u64::from),
            "{s:?}"
        );
    }
}

#[test]
fn lines_fences_and_spans_are_found() {
    assert_eq!(line_end_at(&chars("ab\ncd"), 0), 3);
    assert_eq!(line_end_at(&chars("ab\ncd"), 3), 5);
    assert_eq!(opened_fence(&chars("  ````rust\n")), Some(('`', 4)));
    assert_eq!(opened_fence(&chars("~~\n")), None);
    assert!(is_closing_fence_line(&chars(" ````` \n"), '`', 4));
    assert!(!is_closing_fence_line(&chars("````x\n"), '`', 4));
    assert!(!is_closing_fence_line(&chars("```\n"), '`', 4));
    assert_eq!(find_matching_backtick_run(&chars("a`b```"), 0, 2), Some(3));
    assert_eq!(find_matching_backtick_run(&chars("a`b`"), 0, 2), None);
}

#[test]
fn tags_are_found_in_any_case() {
    let s = chars("<trx> <TR a=\"<td>\">");
    assert_eq!(find_tag(&s, 0, &chars("tr")), Some(6));
    assert_eq!(find_tag(&s, 7, &chars("tr")), None);
    assert_eq!(find_tag_end(&s, 6), Some(19));
    assert_eq!(count_case_insensitive_occurrences(&chars("<TABLE<table<tabl"), "<table"), 2);
    assert_eq!(count_case_insensitive_occurrences(&chars("aaa"), "aa"), 1);
    assert_eq!(count_case_insensitive_occurrences(&chars("a"), ""), 0);
}

#[test]
fn texts_are_ordered_like_strings() {
    let words = ["", "a", "A", "ab", "b", "\u{e9}", "\u{1f600}", "\u{ffff}", "a b", "a-b"];
    for a in words {
        for b in words {
            assert_eq!(stands_before(&chars(a), &chars(b)), a < b, "{a:?} {b:?}");
        }
    }
    let items: Vec<(String, usize)> =
        ["b", "a", "b", "a"].iter().enumerate().map(|(i, s)| (s.to_string(), i)).collect();
    let got: Vec<usize> = sort_by_key(items).into_iter().map(|(_, i)| i).collect();
    assert_eq!(got, vec![1, 3, 0, 2]);
}

#[test]
fn paths_are_taken_apart_like_those_of_the_system() {
    let paths = [
        "", "/", "a", "a/", "a/b", "a//b", "/a/b.c", "/a/./b/", ".", "..", "./a", "a/..", "a/.",
        "/..", ".hidden", "a.b.c", "a.", "x/.y.z", "//a", "./.", "...", "a/./.", "/a/b/../c",
    ];
    for p in paths {
        let path = Path::new(p);
        let name = path.file_name().and_then(|s| s.to_str()).map(str::to_string);
        assert_eq!(find_file_name(POSIX, &chars(p)).map(text), name, "{p:?}");
        let stem = path.file_stem().and_then(|s| s.to_str()).map(str::to_string);
        assert_eq!(find_file_stem(POSIX, &chars(p)).map(|s| text(&s)), stem, "{p:?}");
        let ext = path.extension().and_then(|s| s.to_str()).map(str::to_string);
        assert_eq!(find_extension(POSIX, &chars(p)).map(|s| text(&s)), ext, "{p:?}");
        let parent = path.parent().and_then(|s| s.to_str()).map(str::to_string);
        assert_eq!(find_parent(POSIX, &chars(p)).map(text), parent, "{p:?}");
        for q in paths {
            let joined = path.join(q).to_str().map(str::to_string);
            assert_eq!(Some(text(&join_name(POSIX, &chars(p), q))), joined, "{p:?} {q:?}");
            let rest = path.strip_prefix(q).ok().and_then(|s| s.to_str()).map(str::to_string);
            assert_eq!(strip_prefix(POSIX, &chars(p), &chars(q)).map(text), rest, "{p:?} {q:?}");
        }
        assert_eq!(is_absolute(POSIX, &chars(p)), path.is_absolute(), "{p:?}");
        let above: Vec<String> =
            path.ancestors().filter_map(|s| s.to_str()).map(str::to_string).collect();
        let got: Vec<String> = ancestors_of(POSIX, &chars(p)).iter().map(|s| text(s)).collect();
        assert_eq!(got, above, "{p:?}");
    }
    assert!(is_pdf_path(POSIX, &chars("a/b.PdF")));
    assert!(!is_pdf_path(POSIX, &chars("a.pdf/b")));
}

#[test]
fn windows_paths_have_names_and_parents() {
    let cases: [(&str, Option<&str>, Option<&str>); 24] = [
        (r"C:\a\b.pdf", Some("b.pdf"), Some(r"C:\a")),
        (r"C:\a/b.pdf", Some("b.pdf"), Some(r"C:\a")),
        (r"C:\a", Some("a"), Some(r"C:\")),
        (r"C:\", None, None),
        ("C:", None, None),
        ("C:a", Some("a"), Some("C:")),
        (r"a\.\b\", Some("b"), Some("a")),
        (r"\a", Some("a"), Some(r"\")),
        (r"..", None, Some("")),
        (r"\\server\share\a", Some("a"), Some(r"\\server\share\")),
        (r"\\server\share\", None, None),
        (r"\\server\share", None, None),
        (r"\\server", Some("server"), Some(r"\")),
        ("//server/share/a", Some("a"), Some("//server/share/")),
        (r"\\.\COM1\a", Some("a"), Some(r"\\.\COM1\")),
        (r"\\?\C:\a\b.pdf", Some("b.pdf"), Some(r"\\?\C:\a")),
        (r"\\?\C:\a/b", Some("a/b"), Some(r"\\?\C:\")),
        (r"\\?\C:/a/b", Some("a/b"), Some(r"\\?\C:/")),
        (r"\\?\C:/", None, None),
        (r"\\?\C:\a\.", None, Some(r"\\?\C:\a")),
        (r"\\?\C:\", None, None),
        (r"\\?\UNC\server\share\a", Some("a"), Some(r"\\?\UNC\server\share\")),
        (r"\\?\UNC\server\share", None, None),
        (r"\\?\name\a", Some("a"), Some(r"\\?\name\")),
    ];
    for (p, name, parent) in cases {
        assert_eq!(find_file_name(WINDOWS, &chars(p)).map(text).as_deref(), name, "{p:?}");
        assert_eq!(find_parent(WINDOWS, &chars(p)).map(text).as_deref(), parent, "{p:?}");
    }
    let stem = find_file_stem(WINDOWS, &chars(r"C:\a.b\c.d.e"));
    assert_eq!(stem.map(|s| text(&s)).as_deref(), Some("c.d"));
    assert_eq!(find_extension(WINDOWS, &chars(r"C:\a.b\c")), None);
    assert!(is_pdf_path(WINDOWS, &chars(r"C:\a\b.PDF")));
    for p in [r"C:\", "C:/a", r"\\s\h", r"\\.\COM1", r"\\?\C:", r"\\?\x"] {
        assert!(is_absolute(WINDOWS, &chars(p)), "{p:?}");
    }
    for p in ["", "a", "C:", "C:a", r"\a", "/a", r"\\s"] {
        assert!(!is_absolute(WINDOWS, &chars(p)), "{p:?}");
    }
}

#[test]
fn windows_paths_are_joined() {
    let cases = [
        (r"C:\a", "b", r"C:\a\b"),
        (r"C:\a\", "b", r"C:\a\b"),
        ("C:/a/", r"b\c", r"C:/a/b\c"),
        ("C:", "a", "C:a"),
        ("", "a", "a"),
        ("a", "", r"a\"),
        (r"C:\a", r"\b", r"C:\b"),
        (r"\\s\h\a", "/b", r"\\s\h/b"),
        (r"C:\a", r"D:\b", r"D:\b"),
        (r"C:\a", "D:b", "D:b"),
        (r"C:\a", r"..\b", r"C:\a\..\b"),
        (r"\\?\C:\a", "b/c", r"\\?\C:\a\b\c"),
        (r"\\?\C:\a\b", r"..\.\c", r"\\?\C:\a\c"),
        (r"\\?\C:\a", r"..\..\..", r"\\?\C:\"),
        (r"\\?\C:\a", r"\b", r"\\?\C:\b"),
        (r"\\?\C:\a", "", r"\\?\C:\a\"),
        (r"\\?\C:", "a", r"\\?\C:\a"),
        (r"\\?\C:/a", "b", r"\\?\C:\a\b"),
    ];
    for (p, q, joined) in cases {
        assert_eq!(text(&join_name(WINDOWS, &chars(p), q)), joined, "{p:?} {q:?}");
    }
}

#[test]
fn windows_paths_are_seen_from_others() {
    let cases = [
        (r"C:\a\b\c", r"C:\a", Some(r"b\c")),
        (r"c:\a\b", "C:/a/", Some("b")),
        (r"C:\a", r"C:\A", None),
        (r"C:\a", r"D:\a", None),
        (r"C:\a", "C:a", None),
        (r"C:\a\", "C:", Some(r"\a")),
        (r"C:\a\", "", Some(r"C:\a")),
        (r"C:\a", r"\a", None),
        (r"\\s\h\a", r"\\s\h", Some("a")),
        ("//s/h/a", r"\\s\h\", Some("a")),
        (r"\\?\C:\a\b", r"\\?\c:\a", Some("b")),
        (r"\\?\C:\a\b", r"C:\a", None),
        (r"\\?\C:\a\b", r"\\?\C:/a", Some("b")),
        (r"a\.\b", "a", Some("b")),
    ];
    for (p, base, rest) in cases {
        let got = strip_prefix(WINDOWS, &chars(p), &chars(base)).map(text);
        assert_eq!(got.as_deref(), rest, "{p:?} {base:?}");
    }
}

#[test]
fn nothing_is_found_behind_the_end() {
    let s = chars("a <b> `c`");
    for start in [9, 10, 99, usize::MAX] {
        assert_eq!(backtick_run_len(&s, start), None);
        assert_eq!(find_matching_backtick_run(&s, start, 1), None);
        assert!(!tag_starts(&s, start, &chars("b")));
        assert_eq!(find_tag(&s, start, &chars("b")), None);
        assert_eq!(find_tag_end(&s, start), None);
    }
    assert_eq!(find_matching_backtick_run(&s, 0, 1), Some(6));
    assert_eq!(find_matching_backtick_run(&s, 0, 0), Some(6));
    assert_eq!(find_matching_backtick_run(&s, 0, 2), None);
}
