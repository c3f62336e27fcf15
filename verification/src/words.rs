//! Tokenization: splitting paragraph text into whitespace-separated words.
use vstd::prelude::*;
use vstd::string::*;

verus! {

/// A whitespace character: the ASCII whitespace set (space, tab, line feed,
/// vertical tab, form feed, carriage return). Runs of these separate words;
/// they include the line breaks the caller used to join a paragraph's lines.
pub open spec fn is_ws_char(c: char) -> bool {
    c == ' ' || c == '\t' || c == '\n' || c == '\r' || c == '\u{b}' || c == '\u{c}'
}

/// Executable mirror of `is_ws_char`.
pub fn is_whitespace_char(c: char) -> (r: bool)
    ensures
        r == is_ws_char(c),
{
    c == ' ' || c == '\t' || c == '\n' || c == '\r' || c == '\u{b}' || c == '\u{c}'
}

/// No character of `w` is whitespace.
pub open spec fn no_ws(w: Seq<char>) -> bool {
    forall|j: int| 0 <= j < w.len() ==> !is_ws_char(w[j])
}

/// A well-formed word sequence: every word is non-empty and whitespace-free.
pub open spec fn wf_words(ws: Seq<Seq<char>>) -> bool {
    forall|k: int| 0 <= k < ws.len() ==> ws[k].len() > 0 && no_ws(#[trigger] ws[k])
}

/// The words of the text `cur + rest`, scanned left to right, where `cur` is
/// the (whitespace-free) run of word characters read so far and `rest` is the
/// text still to be read.
pub open spec fn words_rec(cur: Seq<char>, rest: Seq<char>) -> Seq<Seq<char>>
    decreases rest.len(),
{
    if rest.len() == 0 {
        if cur.len() == 0 {
            Seq::<Seq<char>>::empty()
        } else {
            seq![cur]
        }
    } else if is_ws_char(rest[0]) {
        if cur.len() == 0 {
            words_rec(cur, rest.drop_first())
        } else {
            seq![cur] + words_rec(Seq::<char>::empty(), rest.drop_first())
        }
    } else {
        words_rec(cur.push(rest[0]), rest.drop_first())
    }
}

/// The ordered sequence of words of `s`: maximal whitespace-free runs,
/// in left-to-right order. Leading, trailing and repeated whitespace
/// produce no empty words.
pub open spec fn words_of(s: Seq<char>) -> Seq<Seq<char>> {
    words_rec(Seq::<char>::empty(), s)
}

/// The sequence of views of a sequence of `String` words.
pub open spec fn wv(ws: Seq<String>) -> Seq<Seq<char>> {
    ws.map_values(|w: String| w@)
}

/// Every word produced by the scan is non-empty and whitespace-free.
pub proof fn lemma_words_rec_wf(cur: Seq<char>, rest: Seq<char>)
    requires
        no_ws(cur),
    ensures
        wf_words(words_rec(cur, rest)),
    decreases rest.len(),
{
    if rest.len() == 0 {
    } else if is_ws_char(rest[0]) {
        if cur.len() == 0 {
            lemma_words_rec_wf(cur, rest.drop_first());
        } else {
            lemma_words_rec_wf(Seq::<char>::empty(), rest.drop_first());
            assert forall|k: int|
                0 <= k < words_rec(cur, rest).len() implies words_rec(cur, rest)[k].len() > 0
                && no_ws(#[trigger] words_rec(cur, rest)[k]) by {
                if k > 0 {
                    assert(words_rec(cur, rest)[k] == words_rec(
                        Seq::<char>::empty(),
                        rest.drop_first(),
                    )[k - 1]);
                }
            }
        }
    } else {
        assert(no_ws(cur.push(rest[0]))) by {
            assert(forall|j: int|
                0 <= j < cur.len() ==> cur.push(rest[0])[j] == cur[j]);
        }
        lemma_words_rec_wf(cur.push(rest[0]), rest.drop_first());
    }
}

/// The word sequence of `s` is well formed.
pub proof fn lemma_words_of_wf(s: Seq<char>)
    ensures
        wf_words(words_of(s)),
{
    lemma_words_rec_wf(Seq::<char>::empty(), s);
}

/// Splitting on a whitespace separator: the words of `a + sep + b` are the
/// words of `a` (with `cur` pending) followed by the words of `b`.
pub proof fn lemma_words_split(cur: Seq<char>, a: Seq<char>, sep: char, b: Seq<char>)
    requires
        is_ws_char(sep),
    ensures
        words_rec(cur, a + seq![sep] + b) == words_rec(cur, a) + words_of(b),
    decreases a.len(),
{
    let whole = a + seq![sep] + b;
    if a.len() == 0 {
        assert(whole[0] == sep);
        assert(whole.drop_first() =~= b);
        if cur.len() == 0 {
            assert(cur =~= Seq::<char>::empty());
            assert(words_rec(cur, whole) == words_of(b));
            assert(words_rec(cur, a) + words_of(b) =~= words_of(b));
        } else {
            assert(words_rec(cur, whole) == seq![cur] + words_of(b));
            assert(words_rec(cur, a) + words_of(b) =~= seq![cur] + words_of(b));
        }
    } else {
        assert(whole[0] == a[0]);
        assert(whole.drop_first() =~= a.drop_first() + seq![sep] + b);
        if is_ws_char(a[0]) {
            if cur.len() == 0 {
                lemma_words_split(cur, a.drop_first(), sep, b);
            } else {
                lemma_words_split(Seq::<char>::empty(), a.drop_first(), sep, b);
                assert(seq![cur] + (words_rec(Seq::<char>::empty(), a.drop_first()) + words_of(b))
                    =~= (seq![cur] + words_rec(Seq::<char>::empty(), a.drop_first())) + words_of(
                    b,
                ));
            }
        } else {
            lemma_words_split(cur.push(a[0]), a.drop_first(), sep, b);
        }
    }
}

/// A whitespace-free text is a single word (continuing `cur`), unless both
/// are empty.
pub proof fn lemma_words_single(cur: Seq<char>, w: Seq<char>)
    requires
        no_ws(w),
    ensures
        words_rec(cur, w) == if cur.len() + w.len() == 0 {
            Seq::<Seq<char>>::empty()
        } else {
            seq![cur + w]
        },
    decreases w.len(),
{
    if w.len() == 0 {
        assert(cur + w =~= cur);
    } else {
        assert(!is_ws_char(w[0]));
        lemma_words_single(cur.push(w[0]), w.drop_first());
        assert(cur.push(w[0]) + w.drop_first() =~= cur + w);
    }
}

/// Reading one full word: if the first `k` characters of `rest` are
/// word characters and the scan stops there (end of text or whitespace),
/// the first word out is `cur + rest.take(k)`.
pub proof fn lemma_words_take_word(cur: Seq<char>, rest: Seq<char>, k: int)
    requires
        0 <= k <= rest.len(),
        forall|j: int| 0 <= j < k ==> !is_ws_char(rest[j]),
        k == rest.len() || is_ws_char(rest[k]),
        cur.len() + k > 0,
    ensures
        words_rec(cur, rest) == seq![cur + rest.take(k)] + words_rec(
            Seq::<char>::empty(),
            rest.skip(k),
        ),
    decreases k,
{
    if k == 0 {
        assert(cur.len() > 0);
        assert(cur + rest.take(0) =~= cur);
        assert(rest.skip(0) =~= rest);
        if rest.len() == 0 {
            assert(words_rec(Seq::<char>::empty(), rest) =~= Seq::<Seq<char>>::empty());
            assert(seq![cur] + Seq::<Seq<char>>::empty() =~= seq![cur]);
        } else {
            assert(is_ws_char(rest[0]));
        }
    } else {
        assert(!is_ws_char(rest[0]));
        lemma_words_take_word(cur.push(rest[0]), rest.drop_first(), k - 1);
        assert(cur.push(rest[0]) + rest.drop_first().take(k - 1) =~= cur + rest.take(k));
        assert(rest.drop_first().skip(k - 1) =~= rest.skip(k));
    }
}

/// Finds the end of the word starting at `start`: the first index at or
/// after `start` holding whitespace, or the end of the text.
fn scan_word_end(text: &str, n: usize, start: usize) -> (end: usize)
    requires
        n == text@.len(),
        start < n,
        !is_ws_char(text@[start as int]),
    ensures
        start < end <= n,
        forall|j: int| start <= j < end ==> !is_ws_char(text@[j]),
        end < n ==> is_ws_char(text@[end as int]),
{
    let mut end: usize = start + 1;
    while end < n
        invariant
            start < end <= n,
            n == text@.len(),
            forall|j: int| start <= j < end ==> !is_ws_char(text@[j]),
        decreases n - end,
    {
        let c = text.get_char(end);
        if is_whitespace_char(c) {
            return end;
        }
        end += 1;
    }
    end
}

/// Splits `text` on runs of whitespace into its ordered sequence of words.
/// Total over any input: an empty or all-whitespace text yields no words.
pub fn tokenize(text: &str) -> (words: Vec<String>)
    ensures
        wv(words@) == words_of(text@),
        wf_words(wv(words@)),
{
    proof {
        lemma_words_of_wf(text@);
    }
    let n: usize = text.unicode_len();
    let mut out: Vec<String> = Vec::new();
    let mut i: usize = 0;
    proof {
        assert(text@.skip(0) =~= text@);
        assert(wv(out@) + words_rec(Seq::<char>::empty(), text@) =~= words_rec(
            Seq::<char>::empty(),
            text@,
        ));
    }
    while i < n
        invariant
            i <= n,
            n == text@.len(),
            words_of(text@) == wv(out@) + words_rec(Seq::<char>::empty(), text@.skip(i as int)),
        decreases n - i,
    {
        let c = text.get_char(i);
        if is_whitespace_char(c) {
            proof {
                assert(text@.skip(i as int).drop_first() =~= text@.skip(i + 1));
            }
            i += 1;
        } else {
            let end = scan_word_end(text, n, i);
            let piece = text.substring_char(i, end);
            let w: String = piece.to_owned();
            proof {
                let rest = text@.skip(i as int);
                let k = end - i;
                assert(forall|j: int| 0 <= j < k ==> rest[j] == text@[i + j]);
                if k < rest.len() {
                    assert(rest[k as int] == text@[end as int]);
                }
                lemma_words_take_word(Seq::<char>::empty(), rest, k as int);
                assert(Seq::<char>::empty() + rest.take(k as int) =~= text@.subrange(
                    i as int,
                    end as int,
                ));
                assert(rest.skip(k as int) =~= text@.skip(end as int));
                assert(wv(out@.push(w)) =~= wv(out@) + seq![w@]);
                assert((wv(out@) + seq![w@]) + words_rec(
                    Seq::<char>::empty(),
                    text@.skip(end as int),
                ) =~= wv(out@) + (seq![w@] + words_rec(
                    Seq::<char>::empty(),
                    text@.skip(end as int),
                )));
            }
            out.push(w);
            i = end;
        }
    }
    proof {
        assert(text@.skip(n as int) =~= Seq::<char>::empty());
        assert(wv(out@) + words_rec(Seq::<char>::empty(), Seq::<char>::empty()) =~= wv(out@));
    }
    out
}

} // verus!
