//! The mathematical model of packed lines: widths, feasible wrappings,
//! rendering, and the round trip from rendered text back to words.
use vstd::prelude::*;
use crate::words::{is_ws_char, no_ws, wf_words, words_of, words_rec, wv};
use crate::words::{lemma_words_single, lemma_words_split};

verus! {

/// The view of a packing held as vectors: each line's words as char sequences.
pub open spec fn lv(lines: Seq<Vec<String>>) -> Seq<Seq<Seq<char>>> {
    lines.map_values(|l: Vec<String>| wv(l@))
}

/// Sum of the word lengths of a line.
pub open spec fn sum_lens(ws: Seq<Seq<char>>) -> int
    decreases ws.len(),
{
    if ws.len() == 0 {
        0
    } else {
        ws[0].len() + sum_lens(ws.drop_first())
    }
}

/// Rendered length of a line: the word lengths plus one space between each
/// pair of consecutive words.
pub open spec fn line_width(ws: Seq<Seq<char>>) -> int {
    if ws.len() == 0 {
        0
    } else {
        sum_lens(ws) + ws.len() - 1
    }
}

/// A legal output line: non-empty, and within the width unless it consists
/// of a single (unsplittable, overflowing) word.
pub open spec fn line_ok(ws: Seq<Seq<char>>, max: int) -> bool {
    ws.len() > 0 && (line_width(ws) <= max || ws.len() == 1)
}

/// The words of a packing, in order: its lines concatenated.
pub open spec fn flat(lines: Seq<Seq<Seq<char>>>) -> Seq<Seq<char>>
    decreases lines.len(),
{
    if lines.len() == 0 {
        Seq::<Seq<char>>::empty()
    } else {
        lines[0] + flat(lines.drop_first())
    }
}

/// A feasible wrapping of the words `ws` at width `max`: consecutive lines
/// holding exactly the words of `ws` in order, each line legal.
pub open spec fn feasible(lines: Seq<Seq<Seq<char>>>, ws: Seq<Seq<char>>, max: int) -> bool {
    &&& flat(lines) == ws
    &&& forall|i: int| 0 <= i < lines.len() ==> line_ok(#[trigger] lines[i], max)
}

/// One rendered line: its words joined by single spaces.
pub open spec fn render_line(ws: Seq<Seq<char>>) -> Seq<char>
    decreases ws.len(),
{
    if ws.len() == 0 {
        Seq::<char>::empty()
    } else if ws.len() == 1 {
        ws[0]
    } else {
        ws[0] + seq![' '] + render_line(ws.drop_first())
    }
}

/// A rendered packing: its rendered lines joined by single line breaks,
/// with no trailing break.
pub open spec fn render_lines(lines: Seq<Seq<Seq<char>>>) -> Seq<char>
    decreases lines.len(),
{
    if lines.len() == 0 {
        Seq::<char>::empty()
    } else if lines.len() == 1 {
        render_line(lines[0])
    } else {
        render_line(lines[0]) + seq!['\n'] + render_lines(lines.drop_first())
    }
}

pub proof fn lemma_sum_lens_push(ws: Seq<Seq<char>>, w: Seq<char>)
    ensures
        sum_lens(ws.push(w)) == sum_lens(ws) + w.len(),
    decreases ws.len(),
{
    if ws.len() == 0 {
        assert(ws.push(w).drop_first() =~= Seq::<Seq<char>>::empty());
        assert(sum_lens(ws.push(w).drop_first()) == 0);
    } else {
        assert(ws.push(w).drop_first() =~= ws.drop_first().push(w));
        lemma_sum_lens_push(ws.drop_first(), w);
    }
}

pub proof fn lemma_sum_lens_nonneg(ws: Seq<Seq<char>>)
    ensures
        sum_lens(ws) >= 0,
    decreases ws.len(),
{
    if ws.len() > 0 {
        lemma_sum_lens_nonneg(ws.drop_first());
    }
}

pub proof fn lemma_sum_lens_concat(a: Seq<Seq<char>>, b: Seq<Seq<char>>)
    ensures
        sum_lens(a + b) == sum_lens(a) + sum_lens(b),
    decreases a.len(),
{
    if a.len() == 0 {
        assert(a + b =~= b);
    } else {
        assert((a + b).drop_first() =~= a.drop_first() + b);
        lemma_sum_lens_concat(a.drop_first(), b);
    }
}

/// Width grows (weakly) as a prefix takes more words.
pub proof fn lemma_width_take_mono(ws: Seq<Seq<char>>, a: int, b: int)
    requires
        0 <= a <= b <= ws.len(),
    ensures
        line_width(ws.take(a)) <= line_width(ws.take(b)),
{
    assert(ws.take(b) =~= ws.take(a) + ws.subrange(a, b));
    lemma_sum_lens_concat(ws.take(a), ws.subrange(a, b));
    lemma_sum_lens_nonneg(ws.subrange(a, b));
    lemma_sum_lens_nonneg(ws.take(a));
}

/// A contiguous tail of a line is no wider than the line.
pub proof fn lemma_width_subrange_mono(ws: Seq<Seq<char>>, i: int, j: int, e: int)
    requires
        0 <= i <= j < e <= ws.len(),
    ensures
        line_width(ws.subrange(j, e)) <= line_width(ws.subrange(i, e)),
{
    assert(ws.subrange(i, e) =~= ws.subrange(i, j) + ws.subrange(j, e));
    lemma_sum_lens_concat(ws.subrange(i, j), ws.subrange(j, e));
    lemma_sum_lens_nonneg(ws.subrange(i, j));
}

pub proof fn lemma_flat_push(lines: Seq<Seq<Seq<char>>>, l: Seq<Seq<char>>)
    ensures
        flat(lines.push(l)) == flat(lines) + l,
    decreases lines.len(),
{
    if lines.len() == 0 {
        assert(lines.push(l).drop_first() =~= Seq::<Seq<Seq<char>>>::empty());
        assert(flat(lines.push(l).drop_first()) == Seq::<Seq<char>>::empty());
        assert(flat(lines) == Seq::<Seq<char>>::empty());
        assert(flat(lines.push(l)) =~= flat(lines) + l);
    } else {
        assert(lines.push(l).drop_first() =~= lines.drop_first().push(l));
        lemma_flat_push(lines.drop_first(), l);
        assert(lines[0] + (flat(lines.drop_first()) + l) =~= (lines[0] + flat(
            lines.drop_first(),
        )) + l);
    }
}

/// Splitting a packing splits its words.
pub proof fn lemma_flat_split(lines: Seq<Seq<Seq<char>>>, t: int)
    requires
        0 <= t <= lines.len(),
    ensures
        flat(lines) == flat(lines.take(t)) + flat(lines.skip(t)),
    decreases t,
{
    if t == 0 {
        assert(lines.take(0) =~= Seq::<Seq<Seq<char>>>::empty());
        assert(flat(lines.take(0)) == Seq::<Seq<char>>::empty());
        assert(lines.skip(0) =~= lines);
        assert(flat(lines.take(0)) + flat(lines.skip(0)) =~= flat(lines));
    } else {
        lemma_flat_split(lines.drop_first(), t - 1);
        assert(lines.take(t)[0] == lines[0]);
        assert(lines.take(t).drop_first() =~= lines.drop_first().take(t - 1));
        assert(lines.skip(t) =~= lines.drop_first().skip(t - 1));
        assert(lines[0] + (flat(lines.drop_first().take(t - 1)) + flat(
            lines.drop_first().skip(t - 1),
        )) =~= (lines[0] + flat(lines.drop_first().take(t - 1))) + flat(
            lines.drop_first().skip(t - 1),
        ));
    }
}

pub proof fn lemma_render_line_push(ws: Seq<Seq<char>>, w: Seq<char>)
    ensures
        render_line(ws.push(w)) == if ws.len() == 0 {
            w
        } else {
            render_line(ws) + seq![' '] + w
        },
    decreases ws.len(),
{
    if ws.len() == 0 {
        assert(ws.push(w)[0] == w);
    } else if ws.len() == 1 {
        assert(ws.push(w).drop_first() =~= seq![w]);
        assert(render_line(seq![w]) == w);
        assert(ws[0] + seq![' '] + w =~= (ws[0] + seq![' ']) + w);
        assert(render_line(ws) == ws[0]);
        assert((render_line(ws) + seq![' ']) + w =~= render_line(ws) + seq![' '] + w);
    } else {
        assert(ws.push(w).drop_first() =~= ws.drop_first().push(w));
        lemma_render_line_push(ws.drop_first(), w);
        assert(ws[0] + seq![' '] + (render_line(ws.drop_first()) + seq![' '] + w) =~= (ws[0]
            + seq![' '] + render_line(ws.drop_first())) + seq![' '] + w);
    }
}

pub proof fn lemma_render_lines_push(lines: Seq<Seq<Seq<char>>>, l: Seq<Seq<char>>)
    ensures
        render_lines(lines.push(l)) == if lines.len() == 0 {
            render_line(l)
        } else {
            render_lines(lines) + seq!['\n'] + render_line(l)
        },
    decreases lines.len(),
{
    if lines.len() == 0 {
        assert(lines.push(l)[0] == l);
    } else if lines.len() == 1 {
        assert(lines.push(l).drop_first() =~= seq![l]);
        assert(render_lines(seq![l]) == render_line(l));
        assert(render_lines(lines) == render_line(lines[0]));
        assert((render_lines(lines) + seq!['\n']) + render_line(l) =~= render_lines(lines)
            + seq!['\n'] + render_line(l));
    } else {
        assert(lines.push(l).drop_first() =~= lines.drop_first().push(l));
        lemma_render_lines_push(lines.drop_first(), l);
        assert(render_line(lines[0]) + seq!['\n'] + (render_lines(lines.drop_first())
            + seq!['\n'] + render_line(l)) =~= (render_line(lines[0]) + seq!['\n'] + render_lines(
            lines.drop_first(),
        )) + seq!['\n'] + render_line(l));
    }
}

/// The rendered length of a line is its width.
pub proof fn lemma_render_line_len(ws: Seq<Seq<char>>)
    ensures
        render_line(ws).len() == line_width(ws),
    decreases ws.len(),
{
    if ws.len() == 0 {
    } else if ws.len() == 1 {
        assert(ws.drop_first() =~= Seq::<Seq<char>>::empty());
        assert(sum_lens(ws.drop_first()) == 0);
    } else {
        lemma_render_line_len(ws.drop_first());
    }
}

/// Tokenizing one rendered line yields exactly its words.
pub proof fn lemma_words_of_render_line(ws: Seq<Seq<char>>)
    requires
        wf_words(ws),
    ensures
        words_of(render_line(ws)) == ws,
    decreases ws.len(),
{
    if ws.len() == 0 {
        assert(words_of(render_line(ws)) =~= ws);
    } else if ws.len() == 1 {
        lemma_words_single(Seq::<char>::empty(), ws[0]);
        assert(Seq::<char>::empty() + ws[0] =~= ws[0]);
        assert(render_line(ws) == ws[0]);
        assert(seq![ws[0]] =~= ws);
    } else {
        assert(wf_words(ws.drop_first())) by {
            assert(forall|k: int|
                0 <= k < ws.drop_first().len() ==> ws.drop_first()[k] == ws[k + 1]);
        }
        lemma_words_of_render_line(ws.drop_first());
        lemma_words_split(Seq::<char>::empty(), ws[0], ' ', render_line(ws.drop_first()));
        lemma_words_single(Seq::<char>::empty(), ws[0]);
        assert(Seq::<char>::empty() + ws[0] =~= ws[0]);
        assert(seq![ws[0]] + ws.drop_first() =~= ws);
    }
}

/// A packing made of well-formed, non-empty lines.
pub open spec fn wf_lines(lines: Seq<Seq<Seq<char>>>) -> bool {
    forall|i: int|
        0 <= i < lines.len() ==> wf_words(#[trigger] lines[i]) && lines[i].len() > 0
}

/// Every line of the packing is legal at width `max` and holds well-formed
/// words.
pub open spec fn lines_ok(lines: Seq<Seq<Seq<char>>>, max: int) -> bool {
    forall|i: int|
        0 <= i < lines.len() ==> line_ok(#[trigger] lines[i], max) && wf_words(lines[i])
}

/// Tokenizing a rendered packing yields exactly its words: wrapping
/// neither adds, drops, reorders nor mutates a word.
pub proof fn lemma_words_of_render_lines(lines: Seq<Seq<Seq<char>>>)
    requires
        wf_lines(lines),
    ensures
        words_of(render_lines(lines)) == flat(lines),
    decreases lines.len(),
{
    if lines.len() == 0 {
        assert(words_of(render_lines(lines)) =~= flat(lines));
    } else if lines.len() == 1 {
        lemma_words_of_render_line(lines[0]);
        assert(lines.drop_first() =~= Seq::<Seq<Seq<char>>>::empty());
        assert(flat(lines.drop_first()) == Seq::<Seq<char>>::empty());
        assert(flat(lines) =~= lines[0]);
        assert(render_lines(lines) == render_line(lines[0]));
    } else {
        assert(wf_lines(lines.drop_first())) by {
            assert(forall|k: int|
                0 <= k < lines.drop_first().len() ==> lines.drop_first()[k] == lines[k + 1]);
        }
        lemma_words_of_render_lines(lines.drop_first());
        lemma_words_split(
            Seq::<char>::empty(),
            render_line(lines[0]),
            '\n',
            render_lines(lines.drop_first()),
        );
        lemma_words_of_render_line(lines[0]);
    }
}

} // verus!
