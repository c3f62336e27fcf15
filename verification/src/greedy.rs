//! Greedy line packing: each line takes as many words as the left-to-right
//! scan allows before the width would be exceeded.
use vstd::prelude::*;
use vstd::string::*;
use crate::words::{wf_words, wv};
use crate::model::{feasible, flat, lemma_sum_lens_push, line_ok, line_width, lines_ok, lv, sum_lens};

verus! {

/// One greedy scan step: `cur` is the line being filled (empty only before
/// the first word), `rest` the words still to place. A word joins the
/// current line exactly when the line stays within `max`; otherwise the
/// line is closed and the word opens a new one. A word placed on an empty
/// line is placed unconditionally, even when it alone exceeds `max`.
pub open spec fn greedy_rec(cur: Seq<Seq<char>>, rest: Seq<Seq<char>>, max: int) -> Seq<
    Seq<Seq<char>>,
>
    decreases rest.len(),
{
    if rest.len() == 0 {
        if cur.len() == 0 {
            Seq::<Seq<Seq<char>>>::empty()
        } else {
            seq![cur]
        }
    } else if cur.len() == 0 {
        greedy_rec(seq![rest[0]], rest.drop_first(), max)
    } else if line_width(cur.push(rest[0])) <= max {
        greedy_rec(cur.push(rest[0]), rest.drop_first(), max)
    } else {
        seq![cur] + greedy_rec(seq![rest[0]], rest.drop_first(), max)
    }
}

/// The greedy packing of `ws` at width `max`.
pub open spec fn greedy_spec(ws: Seq<Seq<char>>, max: int) -> Seq<Seq<Seq<char>>> {
    greedy_rec(Seq::<Seq<char>>::empty(), ws, max)
}

/// Greedy packing preserves the words: the lines concatenate back to the
/// pending line followed by the remaining words.
pub proof fn lemma_greedy_rec_flat(cur: Seq<Seq<char>>, rest: Seq<Seq<char>>, max: int)
    ensures
        flat(greedy_rec(cur, rest, max)) == cur + rest,
    decreases rest.len(),
{
    if rest.len() == 0 {
        if cur.len() == 0 {
            assert(flat(greedy_rec(cur, rest, max)) =~= cur + rest);
        } else {
            assert(seq![cur].drop_first() =~= Seq::<Seq<Seq<char>>>::empty());
            assert(flat(seq![cur].drop_first()) == Seq::<Seq<char>>::empty());
            assert(flat(greedy_rec(cur, rest, max)) =~= cur + rest);
        }
    } else if cur.len() == 0 {
        lemma_greedy_rec_flat(seq![rest[0]], rest.drop_first(), max);
        assert(seq![rest[0]] + rest.drop_first() =~= cur + rest);
    } else if line_width(cur.push(rest[0])) <= max {
        lemma_greedy_rec_flat(cur.push(rest[0]), rest.drop_first(), max);
        assert(cur.push(rest[0]) + rest.drop_first() =~= cur + rest);
    } else {
        lemma_greedy_rec_flat(seq![rest[0]], rest.drop_first(), max);
        let tail = greedy_rec(seq![rest[0]], rest.drop_first(), max);
        assert((seq![cur] + tail).drop_first() =~= tail);
        assert(flat(seq![cur] + tail) == cur + flat(tail));
        assert(cur + (seq![rest[0]] + rest.drop_first()) =~= cur + rest);
    }
}

/// Every greedy line is legal and holds well-formed words.
pub proof fn lemma_greedy_rec_ok(cur: Seq<Seq<char>>, rest: Seq<Seq<char>>, max: int)
    requires
        cur.len() == 0 || line_ok(cur, max),
        wf_words(cur),
        wf_words(rest),
    ensures
        lines_ok(greedy_rec(cur, rest, max), max),
    decreases rest.len(),
{
    let result = greedy_rec(cur, rest, max);
    if rest.len() == 0 {
        if cur.len() == 0 {
        } else {
            assert(result == seq![cur]);
            assert(result[0] == cur);
        }
    } else {
        assert(wf_words(rest.drop_first())) by {
            assert(forall|k: int|
                0 <= k < rest.drop_first().len() ==> rest.drop_first()[k] == rest[k + 1]);
        }
        assert(wf_words(seq![rest[0]])) by {
            assert(seq![rest[0]][0] == rest[0]);
        }
        assert(line_ok(seq![rest[0]], max));
        if cur.len() == 0 {
            lemma_greedy_rec_ok(seq![rest[0]], rest.drop_first(), max);
        } else if line_width(cur.push(rest[0])) <= max {
            assert(wf_words(cur.push(rest[0]))) by {
                assert(forall|k: int|
                    0 <= k < cur.len() ==> cur.push(rest[0])[k] == cur[k]);
                assert(cur.push(rest[0])[cur.len() as int] == rest[0]);
            }
            lemma_greedy_rec_ok(cur.push(rest[0]), rest.drop_first(), max);
        } else {
            lemma_greedy_rec_ok(seq![rest[0]], rest.drop_first(), max);
            let tail = greedy_rec(seq![rest[0]], rest.drop_first(), max);
            assert(result == seq![cur] + tail);
            assert forall|i: int| 0 <= i < result.len() implies line_ok(#[trigger] result[i], max)
                && wf_words(result[i]) by {
                if i == 0 {
                    assert(result[0] == cur);
                } else {
                    assert(result[i] == tail[i - 1]);
                }
            }
        }
    }
}

/// How many words the greedy scan puts on the first line, given that the
/// first `k` words (at least one) already stand on it: the line extends
/// while the next word still fits within `max`.
pub open spec fn fit_ext(ws: Seq<Seq<char>>, max: int, k: nat) -> nat
    decreases ws.len() - k,
{
    if k >= ws.len() {
        k
    } else if line_width(ws.take(k as int + 1)) <= max {
        fit_ext(ws, max, (k + 1) as nat)
    } else {
        k
    }
}

/// The number of words on the first greedy line of a non-empty word list.
pub open spec fn first_fit(ws: Seq<Seq<char>>, max: int) -> nat {
    fit_ext(ws, max, 1)
}

pub proof fn lemma_fit_ext_bounds(ws: Seq<Seq<char>>, max: int, k: nat)
    requires
        1 <= k <= ws.len(),
    ensures
        k <= fit_ext(ws, max, k) <= ws.len(),
    decreases ws.len() - k,
{
    if k < ws.len() && line_width(ws.take(k as int + 1)) <= max {
        lemma_fit_ext_bounds(ws, max, (k + 1) as nat);
    }
}

/// The greedy first line fits (or is a single word), and cannot be
/// extended by one more word.
pub proof fn lemma_fit_ext_props(ws: Seq<Seq<char>>, max: int, k: nat)
    requires
        1 <= k <= ws.len(),
        line_width(ws.take(k as int)) <= max || k == 1,
    ensures
        line_width(ws.take(fit_ext(ws, max, k) as int)) <= max || fit_ext(ws, max, k) == 1,
        fit_ext(ws, max, k) < ws.len() ==> line_width(
            ws.take(fit_ext(ws, max, k) as int + 1),
        ) > max,
    decreases ws.len() - k,
{
    if k < ws.len() && line_width(ws.take(k as int + 1)) <= max {
        lemma_fit_ext_props(ws, max, (k + 1) as nat);
    }
}

/// Any prefix that fits is no longer than the greedy first line.
pub proof fn lemma_fit_at_least(ws: Seq<Seq<char>>, max: int, k: nat, m: nat)
    requires
        1 <= k <= m <= ws.len(),
        line_width(ws.take(m as int)) <= max,
    ensures
        fit_ext(ws, max, k) >= m,
    decreases ws.len() - k,
{
    lemma_fit_ext_bounds(ws, max, k);
    if k < m {
        crate::model::lemma_width_take_mono(ws, k as int + 1, m as int);
        lemma_fit_at_least(ws, max, (k + 1) as nat, m);
    }
}

/// Greedy packing, stated line by line: the first line is the longest
/// prefix the scan allows, and the rest is packed greedily in turn.
pub open spec fn greedy_alt(ws: Seq<Seq<char>>, max: int) -> Seq<Seq<Seq<char>>>
    decreases ws.len(),
    via greedy_alt_dec
{
    if ws.len() == 0 {
        Seq::<Seq<Seq<char>>>::empty()
    } else {
        seq![ws.take(first_fit(ws, max) as int)] + greedy_alt(
            ws.skip(first_fit(ws, max) as int),
            max,
        )
    }
}

#[via_fn]
proof fn greedy_alt_dec(ws: Seq<Seq<char>>, max: int) {
    if ws.len() != 0 {
        lemma_fit_ext_bounds(ws, max, 1);
    }
}

/// The accumulator scan agrees with the line-by-line statement: with `k`
/// words already on the open line, the first line closes at `fit_ext`.
proof fn lemma_greedy_rec_alt(cur: Seq<Seq<char>>, rest: Seq<Seq<char>>, max: int)
    requires
        cur.len() >= 1,
    ensures
        greedy_rec(cur, rest, max) == seq![
            (cur + rest).take(fit_ext(cur + rest, max, cur.len()) as int),
        ] + greedy_alt((cur + rest).skip(fit_ext(cur + rest, max, cur.len()) as int), max),
    decreases rest.len(),
{
    let ws = cur + rest;
    let k = cur.len();
    lemma_fit_ext_bounds(ws, max, k);
    if rest.len() == 0 {
        assert(ws =~= cur);
        assert(fit_ext(ws, max, k) == k);
        assert(ws.take(k as int) =~= cur);
        assert(ws.skip(k as int) =~= Seq::<Seq<char>>::empty());
        assert(greedy_alt(ws.skip(k as int), max) == Seq::<Seq<Seq<char>>>::empty());
        assert(seq![cur] + Seq::<Seq<Seq<char>>>::empty() =~= seq![cur]);
    } else {
        assert(ws.take(k as int + 1) =~= cur.push(rest[0]));
        if line_width(cur.push(rest[0])) <= max {
            lemma_greedy_rec_alt(cur.push(rest[0]), rest.drop_first(), max);
            assert(cur.push(rest[0]) + rest.drop_first() =~= ws);
            assert(fit_ext(ws, max, k) == fit_ext(ws, max, (k + 1) as nat));
        } else {
            assert(fit_ext(ws, max, k) == k);
            assert(ws.take(k as int) =~= cur);
            lemma_greedy_rec_alt(seq![rest[0]], rest.drop_first(), max);
            let ws2 = seq![rest[0]] + rest.drop_first();
            assert(ws2 =~= ws.skip(k as int));
            let f2 = fit_ext(ws2, max, 1);
            assert(greedy_rec(seq![rest[0]], rest.drop_first(), max) == seq![
                ws2.take(f2 as int),
            ] + greedy_alt(ws2.skip(f2 as int), max));
            assert(ws.skip(k as int).len() != 0);
            assert(greedy_alt(ws.skip(k as int), max) == seq![
                ws2.take(f2 as int),
            ] + greedy_alt(ws2.skip(f2 as int), max));
        }
    }
}

/// The two statements of greedy packing agree.
pub proof fn lemma_greedy_alt_equiv(ws: Seq<Seq<char>>, max: int)
    ensures
        greedy_spec(ws, max) == greedy_alt(ws, max),
{
    if ws.len() == 0 {
    } else {
        lemma_greedy_rec_alt(seq![ws[0]], ws.drop_first(), max);
        assert(seq![ws[0]] + ws.drop_first() =~= ws);
        assert(greedy_spec(ws, max) == greedy_rec(seq![ws[0]], ws.drop_first(), max));
    }
}

/// Starting the greedy scan further along never yields more lines.
proof fn lemma_greedy_dominance(ws: Seq<Seq<char>>, max: int, i: int, j: int)
    requires
        0 <= i <= j <= ws.len(),
    ensures
        greedy_alt(ws.skip(j), max).len() <= greedy_alt(ws.skip(i), max).len(),
    decreases ws.len() - i,
{
    if j == ws.len() {
        assert(ws.skip(j) =~= Seq::<Seq<char>>::empty());
    } else if i == j {
        assert(ws.skip(i) =~= ws.skip(j));
    } else {
        let si = ws.skip(i);
        let fi = first_fit(si, max) as int;
        lemma_fit_ext_bounds(si, max, 1);
        lemma_fit_ext_props(si, max, 1);
        let ni = i + fi;
        assert(si.skip(fi) =~= ws.skip(ni));
        assert(greedy_alt(si, max).len() == 1 + greedy_alt(ws.skip(ni), max).len());
        if ni <= j {
            lemma_greedy_dominance(ws, max, ni, j);
        } else {
            let sj = ws.skip(j);
            let fj = first_fit(sj, max) as int;
            lemma_fit_ext_bounds(sj, max, 1);
            let nj = j + fj;
            assert(sj.skip(fj) =~= ws.skip(nj));
            assert(greedy_alt(sj, max).len() == 1 + greedy_alt(ws.skip(nj), max).len());
            // the first greedy line from `i` runs past `j`, so it has at
            // least two words and fits; the words from `j` to its end fit
            // on one line, so the greedy line from `j` reaches at least
            // as far.
            assert(fi >= 2);
            assert(line_width(si.take(fi)) <= max);
            assert(si.take(fi) =~= ws.subrange(i, ni));
            assert(sj.take(ni - j) =~= ws.subrange(j, ni));
            crate::model::lemma_width_subrange_mono(ws, i, j, ni);
            lemma_fit_at_least(sj, max, 1, (ni - j) as nat);
            assert(nj >= ni);
            lemma_greedy_dominance(ws, max, ni, nj);
        }
    }
}

/// Greedy packing is line-minimal: no feasible wrapping of the same words
/// at the same width uses fewer lines.
pub proof fn lemma_greedy_minimal(ws: Seq<Seq<char>>, max: int, other: Seq<Seq<Seq<char>>>)
    requires
        feasible(other, ws, max),
    ensures
        greedy_spec(ws, max).len() <= other.len(),
{
    lemma_greedy_alt_equiv(ws, max);
    lemma_greedy_alt_minimal(ws, max, other);
}

proof fn lemma_greedy_alt_minimal(ws: Seq<Seq<char>>, max: int, other: Seq<Seq<Seq<char>>>)
    requires
        feasible(other, ws, max),
    ensures
        greedy_alt(ws, max).len() <= other.len(),
    decreases ws.len(),
{
    if ws.len() == 0 {
    } else {
        assert(other.len() > 0) by {
            if other.len() == 0 {
                assert(flat(other) == Seq::<Seq<char>>::empty());
            }
        }
        let head = other[0];
        let j = head.len() as int;
        assert(line_ok(head, max));
        assert(flat(other) == head + flat(other.drop_first()));
        assert(head =~= ws.take(j));
        assert(flat(other.drop_first()) =~= ws.skip(j));
        assert(feasible(other.drop_first(), ws.skip(j), max)) by {
            assert(forall|k: int|
                0 <= k < other.drop_first().len() ==> other.drop_first()[k] == other[k + 1]);
        }
        let f = first_fit(ws, max) as int;
        lemma_fit_ext_bounds(ws, max, 1);
        assert(j <= f) by {
            if j > 1 {
                assert(line_width(ws.take(j)) <= max);
                lemma_fit_at_least(ws, max, 1, j as nat);
            }
        }
        lemma_greedy_alt_minimal(ws.skip(j), max, other.drop_first());
        lemma_greedy_dominance(ws, max, j, f);
    }
}

/// Packs the words into lines by the greedy left-to-right scan.
pub fn pack_greedy(words: &Vec<String>, max_length: usize) -> (lines: Vec<Vec<String>>)
    ensures
        lv(lines@) == greedy_spec(wv(words@), max_length as int),
{
    let ghost all = wv(words@);
    let ghost max = max_length as int;
    let mut out: Vec<Vec<String>> = Vec::new();
    let mut cur: Vec<String> = Vec::new();
    let mut cur_width: usize = 0;
    let mut idx: usize = 0;
    proof {
        assert(wv(words@).skip(0) =~= wv(words@));
        assert(lv(out@) + greedy_rec(wv(cur@), all, max) =~= greedy_rec(wv(cur@), all, max));
        assert(wv(cur@) =~= Seq::<Seq<char>>::empty());
    }
    while idx < words.len()
        invariant
            idx <= words.len(),
            all == wv(words@),
            max == max_length as int,
            cur_width == line_width(wv(cur@)),
            greedy_spec(all, max) == lv(out@) + greedy_rec(wv(cur@), all.skip(idx as int), max),
        decreases words.len() - idx,
    {
        let w: String = words[idx].clone();
        let wlen = w.as_str().unicode_len();
        proof {
            assert(w@ == all[idx as int]);
            assert(all.skip(idx as int)[0] == all[idx as int]);
            assert(all.skip(idx as int).drop_first() =~= all.skip(idx + 1));
            assert(wv(cur@.push(w)) =~= wv(cur@).push(w@));
            lemma_sum_lens_push(wv(cur@), w@);
        }
        if cur.len() == 0 {
            proof {
                assert(wv(cur@) =~= Seq::<Seq<char>>::empty());
                assert(wv(cur@).push(w@) =~= seq![all[idx as int]]);
                assert(seq![w@].drop_first() =~= Seq::<Seq<char>>::empty());
                assert(sum_lens(seq![w@].drop_first()) == 0);
            }
            cur.push(w);
            cur_width = wlen;
        } else if wlen < max_length && cur_width <= max_length - wlen - 1 {
            proof {
                assert(line_width(wv(cur@).push(w@)) == cur_width + 1 + wlen);
            }
            cur.push(w);
            cur_width = cur_width + 1 + wlen;
        } else {
            proof {
                assert(line_width(wv(cur@).push(w@)) == cur_width + 1 + wlen);
                assert(line_width(wv(cur@).push(w@)) > max);
                assert(lv(out@.push(cur)) =~= lv(out@).push(wv(cur@)));
                assert(seq![w@].drop_first() =~= Seq::<Seq<char>>::empty());
                assert(sum_lens(seq![w@].drop_first()) == 0);
                let tail = greedy_rec(seq![all[idx as int]], all.skip(idx + 1), max);
                assert(lv(out@) + (seq![wv(cur@)] + tail) =~= lv(out@).push(wv(cur@)) + tail);
            }
            out.push(cur);
            cur = Vec::new();
            cur.push(w);
            cur_width = wlen;
            proof {
                assert(wv(cur@) =~= seq![all[idx as int]]);
            }
        }
        idx += 1;
    }
    proof {
        assert(all.skip(words@.len() as int) =~= Seq::<Seq<char>>::empty());
    }
    if cur.len() > 0 {
        proof {
            assert(greedy_rec(wv(cur@), Seq::<Seq<char>>::empty(), max) == seq![wv(cur@)]);
            assert(lv(out@.push(cur)) =~= lv(out@).push(wv(cur@)));
            assert(lv(out@) + seq![wv(cur@)] =~= lv(out@).push(wv(cur@)));
        }
        out.push(cur);
    } else {
        proof {
            assert(wv(cur@) =~= Seq::<Seq<char>>::empty());
            assert(greedy_rec(wv(cur@), Seq::<Seq<char>>::empty(), max)
                == Seq::<Seq<Seq<char>>>::empty());
            assert(lv(out@) + Seq::<Seq<Seq<char>>>::empty() =~= lv(out@));
        }
    }
    out
}

} // verus!
