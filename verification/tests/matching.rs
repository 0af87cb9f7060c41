//! End-to-end matching behaviour of the pipeline, one expression at a time.

use myregex::do_matching;
use myregex::helper::safe_add;
use myregex::helper::SafeAdd;

#[test]
fn test_safe_add() {
    let n = 10usize;
    assert_eq!(Some(30), n.safe_add(&20));

    let n = !0usize;
    assert_eq!(None, n.safe_add(&1));

    let mut n = 10usize;
    assert!(safe_add(&mut n, &20, || ()).is_ok());

    let mut n = !0usize;
    assert!(safe_add(&mut n, &1, || ()).is_err());
}

#[test]
fn test_matching() {
    for use_dfs in [true, false] {
        // parse error
        assert!(do_matching("+b", "bbb", use_dfs).is_err());
        assert!(do_matching("*b", "bbb", use_dfs).is_err());
        assert!(do_matching("|b", "bbb", use_dfs).is_err());
        assert!(do_matching("?b", "bbb", use_dfs).is_err());

        // parse ok, match success
        assert!(do_matching("abc|def", "def", use_dfs).unwrap());
        assert!(do_matching("(abc)*", "abcabc", use_dfs).unwrap());
        assert!(do_matching("(ab|cd)+", "abcdcd", use_dfs).unwrap());
        assert!(do_matching("abc?", "ab", use_dfs).unwrap());

        // parse ok, match fail
        assert!(!do_matching("abc|def", "efa", use_dfs).unwrap());
        assert!(!do_matching("(ab|cd)", "", use_dfs).unwrap());
        assert!(!do_matching("abc?", "acb", use_dfs).unwrap());
    }
}

#[test]
fn grouped_repetition() {
    for use_dfs in [true, false] {
        assert!(do_matching("(abc)*", "abcabc", use_dfs).unwrap());
        // the search is unanchored: zero repetitions match the empty prefix
        assert!(do_matching("(abc)*", "abcab", use_dfs).unwrap());
        assert!(do_matching("(abc)+", "abcabc", use_dfs).unwrap());
        assert!(!do_matching("(abc)+", "abx", use_dfs).unwrap());
    }
}

#[test]
fn alternation_inside_repetition() {
    for use_dfs in [true, false] {
        assert!(do_matching("(ab|cd)+", "abcdcd", use_dfs).unwrap());
        assert!(!do_matching("(ab|cd)+", "", use_dfs).unwrap());
    }
}

#[test]
fn optional_trailing_element() {
    for use_dfs in [true, false] {
        assert!(do_matching("abc?", "ab", use_dfs).unwrap());
        assert!(!do_matching("abc?", "acb", use_dfs).unwrap());
    }
}

#[test]
fn escaped_metacharacters_match_literally() {
    for use_dfs in [true, false] {
        assert!(do_matching("a\\+", "a+", use_dfs).unwrap());
        assert!(do_matching("\\(ab\\)", "(ab)", use_dfs).unwrap());
        assert!(!do_matching("a\\*", "aa", use_dfs).unwrap());
        // a trailing backslash with nothing after it escapes nothing
        assert!(do_matching("ab\\", "ab", use_dfs).unwrap());
    }
}

#[test]
fn strategies_agree_on_samples() {
    let exprs = ["abc|def", "(abc)*", "(ab|cd)+", "abc?", "a(bc)+|c(def)*", "(a|b)(c|d)"];
    let lines = ["", "abc", "def", "abcabc", "abcdcd", "cdefdef", "ad", "bd", "x"];
    for expr in exprs {
        for line in lines {
            let depth = do_matching(expr, line, true).unwrap();
            let width = do_matching(expr, line, false).unwrap();
            assert_eq!(depth, width);
        }
    }
}
