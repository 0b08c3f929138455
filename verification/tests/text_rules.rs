use dump_it::text::{
    contains, cut_after_first, cut_after_last, cut_before, cut_from, ends_with,
    eq_ignore_ascii_case, is_whitespace, normalize, starts_with, take_prefix, trim, word_count,
};

#[test]
fn normalize_collapses_runs_of_white_space() {
    assert_eq!(normalize("  a \n b\t\tc  "), "a b c");
    assert_eq!(normalize(""), "");
    assert_eq!(normalize(" \n "), "");
}

#[test]
fn trim_drops_white_space_at_both_ends_only() {
    assert_eq!(trim("  a  b \n"), "a  b");
    assert_eq!(trim("\u{a0}x\u{3000}"), "x");
}

#[test]
fn word_count_counts_runs() {
    assert_eq!(word_count("This is a paragraph longer than twenty chars."), 8);
    assert_eq!(word_count("   "), 0);
}

#[test]
fn split_words_gives_the_runs_between_white_space() {
    assert_eq!(dump_it::text::split_words(" one  two\tthree\n"), vec!["one", "two", "three"]);
    assert_eq!(dump_it::text::split_words("\u{2003}"), Vec::<String>::new());
}

#[test]
fn joining_puts_one_space_between_parts() {
    let parts = vec!["a".to_string(), "".to_string(), "b".to_string()];
    assert_eq!(dump_it::text::join_spaced(&parts), "a  b");
    assert_eq!(dump_it::text::join_glued(&parts), "ab");
    assert_eq!(dump_it::text::join_spaced(&vec![]), "");
}

#[test]
fn searching_finds_substrings_prefixes_and_suffixes() {
    assert!(contains("<?xml?><urlset>", "<urlset"));
    assert!(!contains("<urlse", "<urlset"));
    assert!(contains("abc", ""));
    assert!(starts_with("https://x", "https://"));
    assert!(!starts_with("http", "https://"));
    assert!(ends_with("a/sitemap.xml", ".xml"));
    assert!(!ends_with("a/sitemap.xml.gz", ".xml"));
    assert!(!ends_with("xml", ".xml"));
}

#[test]
fn cutting_splits_at_the_first_or_last_mark() {
    assert_eq!(cut_before("a#b#c", '#'), "a");
    assert_eq!(cut_before("abc", '#'), "abc");
    assert_eq!(cut_before("#abc", '#'), "");
    assert_eq!(cut_after_last("a.b.c", '.'), Some("c".to_string()));
    assert_eq!(cut_after_last("abc.", '.'), Some(String::new()));
    assert_eq!(cut_after_last("abc", '.'), None);
    assert_eq!(take_prefix("abcdef", 4), "abcd");
    assert_eq!(take_prefix("ab", 4), "ab");
}

#[test]
fn ascii_case_is_ignored_only_for_ascii_letters() {
    assert!(eq_ignore_ascii_case("SubMit", "submit"));
    assert!(!eq_ignore_ascii_case("submit", "submi"));
    assert!(!eq_ignore_ascii_case("\u{c9}", "\u{e9}"));
    assert!(!eq_ignore_ascii_case("[", "{"));
}

#[test]
fn white_space_is_the_unicode_property() {
    for c in ['\t', '\n', '\u{b}', '\u{c}', '\r', ' ', '\u{85}', '\u{a0}', '\u{1680}', '\u{2000}',
        '\u{200a}', '\u{2028}', '\u{2029}', '\u{202f}', '\u{205f}', '\u{3000}'] {
        assert!(is_whitespace(c));
        assert!(c.is_whitespace());
    }
    for c in ['a', '0', '\u{200b}', '\u{feff}', '\u{1f}', '\u{e}', '\u{180e}'] {
        assert!(!is_whitespace(c));
        assert!(!c.is_whitespace());
    }
}

#[test]
fn white_space_agrees_with_std_on_every_character() {
    let mut n: u32 = 0;
    while n <= 0x10ffff {
        if let Some(c) = char::from_u32(n) {
            assert_eq!(dump_it::text::is_whitespace(c), c.is_whitespace());
        }
        n += 1;
    }
}

const SAMPLES: [&str; 10] = [
    "",
    " ",
    "plain",
    "  two  words ",
    "\ttabs\tand\nlines\r\n",
    "\u{a0}no-break\u{a0}space\u{a0}",
    "wide\u{3000}space\u{2003}em",
    "zero\u{200b}width",
    " \u{85}next\u{2028}line\u{2029} ",
    "caf\u{e9} \u{1f600}  \u{4e2d}\u{6587}",
];

#[test]
fn trimming_and_splitting_agree_with_std() {
    for s in SAMPLES {
        assert_eq!(trim(s), s.trim());
        assert_eq!(dump_it::text::split_words(s), s.split_whitespace().collect::<Vec<_>>());
        assert_eq!(normalize(s), s.split_whitespace().collect::<Vec<_>>().join(" "));
        assert_eq!(word_count(s), s.split_whitespace().count());
    }
}

#[test]
fn searching_and_cutting_agree_with_std() {
    for s in SAMPLES {
        for needle in ["", " ", "a", "space", "\u{a0}", "\u{e9} ", "words "] {
            assert_eq!(contains(s, needle), s.contains(needle));
            assert_eq!(starts_with(s, needle), s.starts_with(needle));
            assert_eq!(ends_with(s, needle), s.ends_with(needle));
            assert_eq!(eq_ignore_ascii_case(s, needle), s.eq_ignore_ascii_case(needle));
        }
        for mark in ['a', ' ', '\u{e9}'] {
            assert_eq!(cut_before(s, mark), s.split(mark).next().unwrap());
            assert_eq!(cut_after_last(s, mark), s.rfind(mark).map(|i| s[i + mark.len_utf8()..].to_string()));
        }
    }
}

#[test]
fn cutting_at_the_first_occurrence_of_a_text() {
    assert_eq!(cut_after_first("https://a/b://c", "://"), Some("a/b://c".to_string()));
    assert_eq!(cut_after_first("mailto:x", "://"), None);
    assert_eq!(cut_after_first("ab", ""), Some("ab".to_string()));
    assert_eq!(cut_after_first("", "x"), None);
    assert_eq!(cut_after_first("a::/://", "://"), Some(String::new()));
    assert_eq!(cut_from("host/a/b", '/'), "/a/b");
    assert_eq!(cut_from("host", '/'), "");
    for s in SAMPLES {
        for needle in ["", " ", "a", "space", "\u{a0}", "s "] {
            assert_eq!(cut_after_first(s, needle), s.find(needle).map(|i| s[i + needle.len()..].to_string()));
        }
        for mark in ['a', ' ', '\u{e9}'] {
            assert_eq!(cut_from(s, mark), s.find(mark).map(|i| s[i..].to_string()).unwrap_or_default());
        }
    }
}

#[test]
fn same_holds_of_equal_texts_only() {
    for a in SAMPLES {
        for b in SAMPLES {
            assert_eq!(dump_it::text::same(a, b), a == b);
        }
    }
    assert!(!dump_it::text::same("nav", "Nav"));
    assert!(!dump_it::text::same("nav", "navx"));
}
