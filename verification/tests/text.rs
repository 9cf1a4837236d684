use angelo::edits::{apply, Edit};
use angelo::text::{
    byte_len, comes_before, contains, is_space, join, lines, replace, show_i64, slice, splice,
    split, split_once, strip_prefix, strip_suffix, trim, trim_end, trim_start, words,
};

const SAMPLES: &[&str] = &[
    "",
    " ",
    "a",
    "a b  c\td\n",
    "  héllo wörld \u{2003}",
    "one\ntwo\r\nthree",
    "one\n\ntwo\n",
    "\r\n",
    "a\r",
    "::a::b::",
    "\u{85}x\u{a0}",
];

/// White space is what Unicode says it is.
#[test]
fn every_character_is_or_is_not_a_space() {
    for c in '\0'..=char::MAX {
        assert_eq!(is_space(c), c.is_whitespace(), "{c:?}");
    }
}

#[test]
fn trimming_agrees_with_the_standard_library() {
    for s in SAMPLES {
        assert_eq!(trim(s), s.trim());
        assert_eq!(trim_start(s), s.trim_start());
        assert_eq!(trim_end(s), s.trim_end());
        assert_eq!(words(s), s.split_whitespace().collect::<Vec<_>>());
    }
}

#[test]
fn splitting_agrees_with_the_standard_library() {
    for s in SAMPLES {
        assert_eq!(lines(s), s.lines().collect::<Vec<_>>(), "{s:?}");
        assert_eq!(split(s, ':'), s.split(':').collect::<Vec<_>>());
        let pair = s
            .split_once('o')
            .map(|(a, b)| (a.to_string(), b.to_string()));
        assert_eq!(split_once(s, 'o'), pair);
        assert_eq!(join(&split(s, ':'), ":"), *s);
    }
}

#[test]
fn searching_agrees_with_the_standard_library() {
    for s in SAMPLES {
        for needle in ["o", "::", "two", "ö"] {
            assert_eq!(contains(s, needle), s.contains(needle));
            assert_eq!(replace(s, needle, "<>"), s.replace(needle, "<>"));
            assert_eq!(
                strip_prefix(s, needle),
                s.strip_prefix(needle).map(String::from)
            );
            assert_eq!(
                strip_suffix(s, needle),
                s.strip_suffix(needle).map(String::from)
            );
        }
        assert_eq!(byte_len(s), s.len());
        for other in SAMPLES {
            assert_eq!(comes_before(s, other), s < other, "{s:?} {other:?}");
        }
    }
}

#[test]
fn slices_are_cut_at_characters() {
    for s in SAMPLES {
        for start in 0..=s.len() + 1 {
            for end in 0..=s.len() + 1 {
                assert_eq!(slice(s, start, end), s.get(start..end), "{s:?}");
            }
        }
    }
    assert_eq!(splice("a + b", 2, 3, "and"), "a and b");
}

#[test]
fn numbers_read_as_the_standard_library_writes_them() {
    for n in [0, 7, 10, -1, -90, i64::MAX, i64::MIN] {
        assert_eq!(show_i64(n), n.to_string());
    }
}

#[test]
fn edits_that_are_apart_are_all_made() {
    let edit = |start: usize, end: usize, text: &str| Edit {
        start,
        end,
        text: text.to_string(),
    };
    let out = apply(
        "x = 1 + 2\n",
        vec![edit(0, 1, "longer"), edit(8, 9, ""), edit(6, 7, "-")],
    );
    assert_eq!(out.unwrap(), "longer = 1 - \n");
    assert!(apply("ab", vec![edit(1, 5, "")]).is_none());
}
