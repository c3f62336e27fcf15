//! The reflow engine: tokenize, pack by the selected mode, apply the
//! last-line policy, and render.
use vstd::prelude::*;
use crate::words::{lemma_words_of_wf, tokenize, wf_words, words_of, wv};
use crate::model::{
    feasible, flat, lemma_flat_push, lemma_flat_split, lemma_render_line_len,
    lemma_words_of_render_lines, line_ok, line_width, lines_ok, lv, render_line, render_lines,
    wf_lines,
};
use crate::greedy::{greedy_spec, pack_greedy};
use crate::balanced::{
    balanced_spec, best_cost, inf_cost, lemma_balanced_props, lemma_best_cost_le,
    lemma_greedy_feasible, pack_balanced, pack_balanced_k, total_cost,
};
use crate::render::render;

verus! {

/// Configuration for one reflow invocation.
///
/// `max_length` is the target line width (at least 1); `last_line`, when
/// set, packs the final line under the same objective as every other line
/// instead of exempting it; `reduce_jaggedness`, when set, selects
/// balanced packing instead of greedy.
pub struct FormatOpts {
    pub max_length: usize,
    pub last_line: bool,
    pub reduce_jaggedness: bool,
}

/// The packing the engine produces for the words `ws`. Greedy mode packs
/// each line as full as the scan allows. Balanced mode packs into the
/// greedy line count at the least total badness; unless `last_line` is
/// set, the final greedy line is exempted and only the words before it
/// are balanced over the remaining line slots.
pub open spec fn reformat_lines(ws: Seq<Seq<char>>, max: int, last_line: bool, reduce: bool) -> Seq<
    Seq<Seq<char>>,
> {
    if !reduce {
        greedy_spec(ws, max)
    } else if last_line {
        balanced_spec(ws, max, greedy_spec(ws, max).len() as nat)
    } else {
        let g = greedy_spec(ws, max);
        if g.len() <= 1 {
            g
        } else {
            balanced_spec(ws.take(ws.len() - g.last().len()), max, (g.len() - 1) as nat)
                + seq![g.last()]
        }
    }
}

/// The text the engine produces: the packing of the text's words,
/// rendered. An empty or all-whitespace text renders as the empty text.
pub open spec fn reformat_spec(text: Seq<char>, max: int, last_line: bool, reduce: bool) -> Seq<
    char,
> {
    render_lines(reformat_lines(words_of(text), max, last_line, reduce))
}

/// Splitting off the exempted last greedy line: the earlier lines form a
/// feasible packing of the words before it.
pub proof fn lemma_exempt_split(ws: Seq<Seq<char>>, max: int)
    requires
        wf_words(ws),
        greedy_spec(ws, max).len() >= 2,
    ensures
        ({
            let g = greedy_spec(ws, max);
            let pc = ws.len() - g.last().len();
            &&& 1 <= g.last().len() <= ws.len()
            &&& flat(g.take(g.len() - 1)) == ws.take(pc as int)
            &&& g.last() == ws.skip(pc as int)
            &&& feasible(g.take(g.len() - 1), ws.take(pc as int), max)
            &&& wf_words(ws.take(pc as int))
            &&& best_cost(ws.take(pc as int), max, (g.len() - 1) as nat) < inf_cost()
        }),
{
    lemma_greedy_feasible(ws, max);
    let g = greedy_spec(ws, max);
    let lg = g.len() as int;
    assert(line_ok(g[lg - 1], max));
    lemma_flat_split(g, lg - 1);
    assert(g.skip(lg - 1) =~= seq![g.last()]);
    assert(seq![g.last()].drop_first() =~= Seq::<Seq<Seq<char>>>::empty());
    assert(flat(seq![g.last()].drop_first()) == Seq::<Seq<char>>::empty());
    assert(flat(seq![g.last()]) =~= g.last());
    let fp = flat(g.take(lg - 1));
    let lc = g.last().len() as int;
    assert(fp + g.last() == ws);
    let pc = ws.len() - lc;
    assert(fp =~= ws.take(pc));
    assert(g.last() =~= ws.skip(pc));
    assert(wf_words(ws.take(pc))) by {
        assert(forall|i: int| 0 <= i < pc ==> ws.take(pc)[i] == ws[i]);
    }
    assert(feasible(g.take(lg - 1), ws.take(pc), max)) by {
        assert(forall|i: int| 0 <= i < lg - 1 ==> g.take(lg - 1)[i] == g[i]);
    }
    lemma_best_cost_le(ws.take(pc), max, g.take(lg - 1));
}

/// The engine's packing holds exactly the words `ws` in order, and every
/// line is legal: word preservation and the width bound, in every mode.
pub proof fn lemma_reformat_lines_props(ws: Seq<Seq<char>>, max: int, last_line: bool, reduce: bool)
    requires
        wf_words(ws),
    ensures
        flat(reformat_lines(ws, max, last_line, reduce)) == ws,
        lines_ok(reformat_lines(ws, max, last_line, reduce), max),
        reduce ==> reformat_lines(ws, max, last_line, reduce).len() == greedy_spec(
            ws,
            max,
        ).len(),
{
    lemma_greedy_feasible(ws, max);
    let g = greedy_spec(ws, max);
    if !reduce {
    } else if last_line {
        lemma_balanced_props(ws, max, g.len() as nat);
    } else {
        if g.len() <= 1 {
        } else {
            lemma_exempt_split(ws, max);
            let pc = (ws.len() - g.last().len()) as int;
            let prefix = ws.take(pc);
            lemma_balanced_props(prefix, max, (g.len() - 1) as nat);
            let b = balanced_spec(prefix, max, (g.len() - 1) as nat);
            let result = b + seq![g.last()];
            lemma_flat_push(b, g.last());
            assert(b.push(g.last()) =~= b + seq![g.last()]);
            assert(flat(result) == flat(b) + g.last());
            assert(prefix + ws.skip(pc) =~= ws);
            assert(line_ok(g[g.len() - 1], max));
            assert forall|i: int| 0 <= i < result.len() implies line_ok(
                #[trigger] result[i],
                max,
            ) && wf_words(result[i]) by {
                if i < b.len() {
                    assert(result[i] == b[i]);
                } else {
                    assert(result[i] == g.last());
                }
            }
        }
    }
}

/// Packs with the balanced objective while exempting the last line: the
/// final greedy line keeps its words, and the words before it are
/// balanced over the remaining line slots.
fn pack_balanced_exempt(words: &Vec<String>, max_length: usize) -> (lines: Vec<Vec<String>>)
    requires
        wf_words(wv(words@)),
    ensures
        lv(lines@) == reformat_lines(wv(words@), max_length as int, false, true),
{
    let ghost ws = wv(words@);
    let ghost max = max_length as int;
    let g = pack_greedy(words, max_length);
    proof {
        lemma_greedy_feasible(ws, max);
        assert(lv(g@).len() == g@.len());
    }
    if g.len() <= 1 {
        return g;
    }
    let ghost gs = greedy_spec(ws, max);
    proof {
        lemma_exempt_split(ws, max);
    }
    let lg = g.len();
    let last_count = g[lg - 1].len();
    proof {
        assert(lv(g@)[lg - 1] == wv(g@[lg - 1]@));
        assert(gs.last().len() == last_count);
    }
    let n = words.len();
    let prefix_count = n - last_count;
    let ghost pw = ws.take(prefix_count as int);
    let mut prefix: Vec<String> = Vec::new();
    let mut t: usize = 0;
    proof {
        assert(wv(prefix@) =~= ws.take(0));
    }
    while t < prefix_count
        invariant
            t <= prefix_count <= n,
            n == ws.len(),
            ws == wv(words@),
            wv(prefix@) == ws.take(t as int),
        decreases prefix_count - t,
    {
        let w: String = words[t].clone();
        proof {
            assert(wv(prefix@.push(w)) =~= wv(prefix@).push(w@));
            assert(ws.take(t as int).push(ws[t as int]) =~= ws.take(t + 1));
        }
        prefix.push(w);
        t += 1;
    }
    proof {
        assert(wv(prefix@) == pw);
    }
    let mut result = pack_balanced_k(&prefix, max_length, lg - 1);
    let mut lastv: Vec<String> = Vec::new();
    let mut u: usize = prefix_count;
    proof {
        assert(wv(lastv@) =~= ws.subrange(prefix_count as int, prefix_count as int));
    }
    while u < n
        invariant
            prefix_count <= u <= n,
            n == ws.len(),
            ws == wv(words@),
            wv(lastv@) == ws.subrange(prefix_count as int, u as int),
        decreases n - u,
    {
        let w: String = words[u].clone();
        proof {
            assert(wv(lastv@.push(w)) =~= wv(lastv@).push(w@));
            assert(ws.subrange(prefix_count as int, u as int).push(ws[u as int]) =~= ws.subrange(
                prefix_count as int,
                u + 1,
            ));
        }
        lastv.push(w);
        u += 1;
    }
    proof {
        assert(ws.subrange(prefix_count as int, n as int) =~= ws.skip(prefix_count as int));
        assert(wv(lastv@) == gs.last());
        assert(lv(result@.push(lastv)) =~= lv(result@).push(wv(lastv@)));
        assert(lv(result@).push(gs.last()) =~= lv(result@) + seq![gs.last()]);
    }
    result.push(lastv);
    result
}

/// Reflows `text` to the configured width: splits it into words, packs
/// them by the selected mode and last-line policy, and renders the lines.
/// Total over any text; an empty or all-whitespace text yields the empty
/// string. The second clause is word preservation: the output tokenizes
/// to exactly the input's words.
pub fn reformat(opts: &FormatOpts, text: &str) -> (out: String)
    requires
        opts.max_length >= 1,
    ensures
        out@ == reformat_spec(
            text@,
            opts.max_length as int,
            opts.last_line,
            opts.reduce_jaggedness,
        ),
        words_of(out@) == words_of(text@),
{
    let words = tokenize(text);
    let ghost ws = words_of(text@);
    let ghost max = opts.max_length as int;
    let lines: Vec<Vec<String>> = if !opts.reduce_jaggedness {
        pack_greedy(&words, opts.max_length)
    } else if opts.last_line {
        pack_balanced(&words, opts.max_length)
    } else {
        pack_balanced_exempt(&words, opts.max_length)
    };
    proof {
        lemma_words_of_wf(text@);
        lemma_reformat_lines_props(ws, max, opts.last_line, opts.reduce_jaggedness);
        let packed = reformat_lines(ws, max, opts.last_line, opts.reduce_jaggedness);
        assert(wf_lines(packed)) by {
            assert(forall|i: int|
                0 <= i < packed.len() ==> line_ok(#[trigger] packed[i], max) && wf_words(
                    packed[i],
                ));
        }
        lemma_words_of_render_lines(packed);
    }
    render(&lines)
}

/// Reflowing is idempotent: reformatting an already reformatted text,
/// under the same configuration, reproduces it exactly — the same words
/// and the same lines.
pub proof fn lemma_reformat_idempotent(text: Seq<char>, max: int, last_line: bool, reduce: bool)
    ensures
        reformat_spec(reformat_spec(text, max, last_line, reduce), max, last_line, reduce)
            == reformat_spec(text, max, last_line, reduce),
{
    let ws = words_of(text);
    lemma_words_of_wf(text);
    lemma_reformat_lines_props(ws, max, last_line, reduce);
    let packed = reformat_lines(ws, max, last_line, reduce);
    assert(wf_lines(packed)) by {
        assert(forall|i: int|
            0 <= i < packed.len() ==> line_ok(#[trigger] packed[i], max) && wf_words(packed[i]));
    }
    lemma_words_of_render_lines(packed);
}

/// Reflowing reads the text only through its words: texts that tokenize
/// alike — for instance, a wrapped paragraph re-joined with spaces —
/// reformat alike.
pub proof fn lemma_reformat_words_only(
    t1: Seq<char>,
    t2: Seq<char>,
    max: int,
    last_line: bool,
    reduce: bool,
)
    requires
        words_of(t1) == words_of(t2),
    ensures
        reformat_spec(t1, max, last_line, reduce) == reformat_spec(t2, max, last_line, reduce),
{
}

/// The width bound: every produced line is within `max_length`, except a
/// line holding a single word that alone exceeds it; and a line's
/// rendered length is its width.
pub proof fn lemma_reformat_width_bound(text: Seq<char>, max: int, last_line: bool, reduce: bool)
    ensures
        ({
            let lines = reformat_lines(words_of(text), max, last_line, reduce);
            forall|i: int|
                0 <= i < lines.len() ==> (line_width(#[trigger] lines[i]) <= max || lines[i].len()
                    == 1) && render_line(lines[i]).len() == line_width(lines[i])
        }),
{
    let ws = words_of(text);
    lemma_words_of_wf(text);
    lemma_reformat_lines_props(ws, max, last_line, reduce);
    let lines = reformat_lines(ws, max, last_line, reduce);
    assert forall|i: int|
        0 <= i < lines.len() implies (line_width(#[trigger] lines[i]) <= max || lines[i].len()
        == 1) && render_line(lines[i]).len() == line_width(lines[i]) by {
        assert(line_ok(lines[i], max));
        lemma_render_line_len(lines[i]);
    }
}

/// With balancing on and no last-line exemption, the balanced packing's
/// total badness never exceeds the greedy packing's over the same number
/// of lines.
pub proof fn lemma_balanced_no_worse(ws: Seq<Seq<char>>, max: int)
    requires
        wf_words(ws),
    ensures
        total_cost(balanced_spec(ws, max, greedy_spec(ws, max).len() as nat), max) <= total_cost(
            greedy_spec(ws, max),
            max,
        ),
{
    lemma_greedy_feasible(ws, max);
    lemma_balanced_props(ws, max, greedy_spec(ws, max).len() as nat);
}

/// With the last line exempted, the balanced prefix's total badness never
/// exceeds that of the greedy packing's first lines over the same words
/// and line count.
pub proof fn lemma_balanced_exempt_no_worse(ws: Seq<Seq<char>>, max: int)
    requires
        wf_words(ws),
        greedy_spec(ws, max).len() >= 2,
    ensures
        ({
            let g = greedy_spec(ws, max);
            let prefix = ws.take(ws.len() - g.last().len());
            total_cost(balanced_spec(prefix, max, (g.len() - 1) as nat), max) <= total_cost(
                g.take(g.len() - 1),
                max,
            )
        }),
{
    lemma_exempt_split(ws, max);
    let g = greedy_spec(ws, max);
    let prefix = ws.take(ws.len() - g.last().len());
    lemma_best_cost_le(prefix, max, g.take(g.len() - 1));
    lemma_balanced_props(prefix, max, (g.len() - 1) as nat);
}

} // verus!
