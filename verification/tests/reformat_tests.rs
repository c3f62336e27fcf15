use prose::{reformat, FormatOpts};

fn opts(max_length: usize, last_line: bool, reduce_jaggedness: bool) -> FormatOpts {
    FormatOpts { max_length, last_line, reduce_jaggedness }
}

#[test]
fn greedy_basic_wrap() {
    let o = opts(10, false, false);
    assert_eq!(reformat(&o, "the quick brown fox jumps"), "the quick\nbrown fox\njumps");
}

#[test]
fn single_word_any_config() {
    for &last_line in &[false, true] {
        for &reduce in &[false, true] {
            for &w in &[1usize, 2, 10, 72] {
                let o = opts(w, last_line, reduce);
                assert_eq!(reformat(&o, "a"), "a");
            }
        }
    }
}

#[test]
fn empty_input_gives_empty_output() {
    for &last_line in &[false, true] {
        for &reduce in &[false, true] {
            let o = opts(72, last_line, reduce);
            assert_eq!(reformat(&o, ""), "");
        }
    }
}

#[test]
fn whitespace_only_gives_empty_output() {
    let o = opts(72, false, false);
    assert_eq!(reformat(&o, "   \n \t  "), "");
}

#[test]
fn overflow_word_kept_whole() {
    let o = opts(10, false, false);
    assert_eq!(reformat(&o, "abcdefghijklmno"), "abcdefghijklmno");
    let o2 = opts(10, true, true);
    assert_eq!(reformat(&o2, "abcdefghijklmno"), "abcdefghijklmno");
}

#[test]
fn overflow_word_between_neighbours() {
    let o = opts(4, false, false);
    assert_eq!(reformat(&o, "aa bbbbbbbbbbbb cc"), "aa\nbbbbbbbbbbbb\ncc");
    let o2 = opts(4, false, true);
    assert_eq!(reformat(&o2, "aa bbbbbbbbbbbb cc"), "aa\nbbbbbbbbbbbb\ncc");
}

#[test]
fn balanced_exempts_last_line_by_default() {
    let o = opts(5, false, true);
    assert_eq!(reformat(&o, "aa bb cc dd"), "aa bb\ncc dd");
}

#[test]
fn balanced_moves_word_off_full_line() {
    // greedy gives "aaa bb" / "cc" / "ddddd" with squared shortfalls
    // 0, 16, 1; balancing all three lines gives 9, 1, 1.
    let o = opts(6, true, true);
    assert_eq!(reformat(&o, "aaa bb cc ddddd"), "aaa\nbb cc\nddddd");
}

#[test]
fn balanced_exempt_last_line_still_balances_prefix() {
    // the last greedy line "ddddd" is kept; "aaa bb cc" balances into
    // "aaa" / "bb cc" (costs 9 + 1) rather than "aaa bb" / "cc" (0 + 16).
    let o = opts(6, false, true);
    assert_eq!(reformat(&o, "aaa bb cc ddddd"), "aaa\nbb cc\nddddd");
}

#[test]
fn greedy_ignores_flags() {
    let base = reformat(&opts(10, false, false), "the quick brown fox jumps");
    let with_last = reformat(&opts(10, true, false), "the quick brown fox jumps");
    assert_eq!(base, with_last);
}

#[test]
fn balanced_tie_prefers_earlier_break() {
    // both two-line packings of "a b c" at width 3 cost 4; the earlier
    // breakpoint wins.
    let o = opts(3, true, true);
    assert_eq!(reformat(&o, "a b c"), "a\nb c");
}

#[test]
fn collapses_interior_whitespace() {
    let o = opts(72, false, false);
    assert_eq!(reformat(&o, "  the \t quick\n\nbrown   "), "the quick brown");
}

#[test]
fn idempotent_on_own_output() {
    for &last_line in &[false, true] {
        for &reduce in &[false, true] {
            let o = opts(10, last_line, reduce);
            let once = reformat(&o, "the quick brown fox jumps over the lazy dog");
            let twice = reformat(&o, &once);
            assert_eq!(once, twice);
        }
    }
}

#[test]
fn idempotent_after_rejoining_with_spaces() {
    let o = opts(10, false, false);
    let once = reformat(&o, "the quick brown fox jumps");
    let rejoined = once.replace('\n', " ");
    assert_eq!(reformat(&o, &rejoined), once);
}

#[test]
fn preserves_words_in_every_mode() {
    let input = "one two three four five six seven eight nine ten";
    for &last_line in &[false, true] {
        for &reduce in &[false, true] {
            for &w in &[1usize, 5, 9, 80] {
                let o = opts(w, last_line, reduce);
                let out = reformat(&o, input);
                let got: Vec<String> =
                    out.split_whitespace().map(|s| s.to_string()).collect();
                let want: Vec<String> =
                    input.split_whitespace().map(|s| s.to_string()).collect();
                assert_eq!(got, want);
            }
        }
    }
}

#[test]
fn width_bound_holds() {
    let input = "alpha beta gamma delta epsilon zeta eta theta iota kappa";
    for &last_line in &[false, true] {
        for &reduce in &[false, true] {
            for &w in &[3usize, 7, 12, 30] {
                let o = opts(w, last_line, reduce);
                let out = reformat(&o, input);
                for line in out.lines() {
                    let n_words = line.split_whitespace().count();
                    assert!(line.chars().count() <= w || n_words == 1);
                }
            }
        }
    }
}

#[test]
fn exact_width_fits() {
    let o = opts(11, false, false);
    assert_eq!(reformat(&o, "hello world"), "hello world");
    let o2 = opts(10, false, false);
    assert_eq!(reformat(&o2, "hello world"), "hello\nworld");
}
