use prose::{pack_balanced, pack_greedy, render, tokenize};

fn words(items: &[&str]) -> Vec<String> {
    items.iter().map(|s| s.to_string()).collect()
}

fn lines(items: &[&[&str]]) -> Vec<Vec<String>> {
    items.iter().map(|l| words(l)).collect()
}

#[test]
fn tokenize_splits_on_whitespace_runs() {
    assert_eq!(tokenize("the quick  brown\tfox\njumps"), words(&["the", "quick", "brown", "fox", "jumps"]));
}

#[test]
fn tokenize_trims_edges() {
    assert_eq!(tokenize("  hello   world  "), words(&["hello", "world"]));
}

#[test]
fn tokenize_empty_and_blank() {
    assert_eq!(tokenize(""), Vec::<String>::new());
    assert_eq!(tokenize(" \t \n "), Vec::<String>::new());
}

#[test]
fn tokenize_joined_paragraph_lines() {
    assert_eq!(tokenize("first line\nsecond line"), words(&["first", "line", "second", "line"]));
}

#[test]
fn greedy_packs_each_line_full() {
    let w = tokenize("the quick brown fox jumps");
    assert_eq!(pack_greedy(&w, 10), lines(&[&["the", "quick"], &["brown", "fox"], &["jumps"]]));
}

#[test]
fn greedy_overflow_word_owns_its_line() {
    let w = tokenize("aa bbbbbbbbbbbb cc");
    assert_eq!(pack_greedy(&w, 4), lines(&[&["aa"], &["bbbbbbbbbbbb"], &["cc"]]));
}

#[test]
fn greedy_empty_words_give_no_lines() {
    let w: Vec<String> = Vec::new();
    assert_eq!(pack_greedy(&w, 10), Vec::<Vec<String>>::new());
}

#[test]
fn balanced_uses_greedy_line_count() {
    let w = tokenize("aaa bb cc ddddd");
    assert_eq!(pack_greedy(&w, 6).len(), pack_balanced(&w, 6).len());
}

#[test]
fn balanced_minimizes_squared_shortfall() {
    let w = tokenize("aaa bb cc ddddd");
    assert_eq!(pack_balanced(&w, 6), lines(&[&["aaa"], &["bb", "cc"], &["ddddd"]]));
}

#[test]
fn balanced_tie_breaks_toward_earlier_breakpoints() {
    let w = tokenize("a b c");
    assert_eq!(pack_balanced(&w, 3), lines(&[&["a"], &["b", "c"]]));
}

#[test]
fn render_joins_words_and_lines() {
    let l = lines(&[&["x", "y"], &["z"]]);
    assert_eq!(render(&l), "x y\nz");
}

#[test]
fn render_empty_is_empty() {
    let l: Vec<Vec<String>> = Vec::new();
    assert_eq!(render(&l), "");
}

#[test]
fn greedy_never_uses_more_lines_than_needed() {
    // ten words of length 4 at width 9: two words per line, five lines,
    // which is the least any feasible wrapping can use.
    let w = words(&["aaaa"; 10]);
    let packed = pack_greedy(&w, 9);
    assert_eq!(packed.len(), 5);
}
