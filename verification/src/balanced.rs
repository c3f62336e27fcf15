//! Balanced line packing: among the wrappings that use exactly as many
//! lines as the greedy scan, choose the one with the least total squared
//! shortfall from the target width, preferring earlier breakpoints on ties.
use vstd::prelude::*;
use vstd::string::*;
use crate::words::{wf_words, wv};
use crate::model::{
    feasible, flat, lemma_sum_lens_concat, lemma_sum_lens_nonneg, line_ok, line_width, lines_ok,
    lv, sum_lens,
};
use crate::greedy::{greedy_spec, lemma_greedy_rec_flat, lemma_greedy_rec_ok};

verus! {

/// Cost sums saturate at this bound instead of overflowing.
pub open spec fn cost_cap() -> int {
    u128::MAX as int
}

/// A cost strictly above every attainable cost, marking an infeasible
/// packing.
pub open spec fn inf_cost() -> int {
    cost_cap() + 1
}

/// Saturating addition of two non-negative costs.
pub open spec fn sat_add_spec(a: int, b: int) -> int {
    if a + b > cost_cap() {
        cost_cap()
    } else {
        a + b
    }
}

/// The badness of one line: its squared shortfall from the width. An
/// overflowing single word contributes nothing, since no packing can
/// help it.
pub open spec fn line_cost(ws: Seq<Seq<char>>, max: int) -> int {
    if line_width(ws) <= max {
        (max - line_width(ws)) * (max - line_width(ws))
    } else {
        0
    }
}

/// The total badness of a packing: its line costs summed with saturation.
pub open spec fn total_cost(lines: Seq<Seq<Seq<char>>>, max: int) -> int
    decreases lines.len(),
{
    if lines.len() == 0 {
        0
    } else {
        sat_add_spec(line_cost(lines[0], max), total_cost(lines.drop_first(), max))
    }
}

/// The cost of the best packing of `ws` into exactly `k` lines whose first
/// line holds the first `j` words, or `inf_cost()` when there is none.
pub open spec fn cand(ws: Seq<Seq<char>>, max: int, k: nat, j: int) -> int
    decreases k, 0int,
{
    if 1 <= j <= ws.len() && k >= 1 && line_ok(ws.take(j), max) && best_cost(
        ws.skip(j),
        max,
        (k - 1) as nat,
    ) < inf_cost() {
        sat_add_spec(line_cost(ws.take(j), max), best_cost(ws.skip(j), max, (k - 1) as nat))
    } else {
        inf_cost()
    }
}

/// The least total badness of any feasible packing of `ws` into exactly
/// `k` lines, or `inf_cost()` when no such packing exists.
pub open spec fn best_cost(ws: Seq<Seq<char>>, max: int, k: nat) -> int
    decreases k, ws.len() + 2int,
{
    if k == 0 {
        if ws.len() == 0 {
            0
        } else {
            inf_cost()
        }
    } else {
        best_first(ws, max, k, 1)
    }
}

/// The least cost over packings of `ws` into `k` lines whose first line
/// holds at least `j` words.
pub open spec fn best_first(ws: Seq<Seq<char>>, max: int, k: nat, j: int) -> int
    decreases k, ws.len() - j + 1int,
{
    if j < 1 || j > ws.len() || k == 0 {
        inf_cost()
    } else {
        let c = cand(ws, max, k, j);
        let rest = best_first(ws, max, k, j + 1);
        if c <= rest {
            c
        } else {
            rest
        }
    }
}

/// The first-line word count the balanced packer picks: the smallest at
/// or after `j` whose candidate cost meets `target`.
pub open spec fn pick_from(ws: Seq<Seq<char>>, max: int, k: nat, j: int, target: int) -> int
    decreases ws.len() - j + 1int,
{
    if j < 1 || j > ws.len() {
        0
    } else if cand(ws, max, k, j) == target {
        j
    } else {
        pick_from(ws, max, k, j + 1, target)
    }
}

/// The balanced packing of `ws` into `k` lines: a feasible packing of
/// least total badness, tie-broken toward earlier breakpoints.
pub open spec fn balanced_spec(ws: Seq<Seq<char>>, max: int, k: nat) -> Seq<Seq<Seq<char>>>
    decreases k,
{
    if k == 0 || best_cost(ws, max, k) >= inf_cost() {
        Seq::<Seq<Seq<char>>>::empty()
    } else {
        let m = pick_from(ws, max, k, 1, best_cost(ws, max, k));
        seq![ws.take(m)] + balanced_spec(ws.skip(m), max, (k - 1) as nat)
    }
}

/// Line costs are non-negative, so saturating sums stay within the cap.
pub proof fn lemma_line_cost_nonneg(ws: Seq<Seq<char>>, max: int)
    ensures
        line_cost(ws, max) >= 0,
{
}

pub proof fn lemma_total_cost_bounds(lines: Seq<Seq<Seq<char>>>, max: int)
    ensures
        0 <= total_cost(lines, max) <= cost_cap(),
    decreases lines.len(),
{
    if lines.len() > 0 {
        lemma_total_cost_bounds(lines.drop_first(), max);
        lemma_line_cost_nonneg(lines[0], max);
    }
}

/// `best_first` never exceeds any one candidate at or after `j`.
proof fn lemma_best_first_le_cand(ws: Seq<Seq<char>>, max: int, k: nat, j: int, m: int)
    requires
        1 <= j <= m <= ws.len(),
        k >= 1,
    ensures
        best_first(ws, max, k, j) <= cand(ws, max, k, m),
    decreases m - j,
{
    if j < m {
        lemma_best_first_le_cand(ws, max, k, j + 1, m);
    }
}

/// `best_first` is bounded by `inf_cost` and attained by some candidate.
proof fn lemma_best_first_bounds(ws: Seq<Seq<char>>, max: int, k: nat, j: int)
    requires
        k >= 1,
    ensures
        best_first(ws, max, k, j) <= inf_cost(),
        best_first(ws, max, k, j) < inf_cost() ==> exists|m: int|
            j <= m <= ws.len() && #[trigger] cand(ws, max, k, m) == best_first(ws, max, k, j),
    decreases ws.len() - j + 1int,
{
    if j < 1 || j > ws.len() {
    } else {
        lemma_best_first_bounds(ws, max, k, j + 1);
        let c = cand(ws, max, k, j);
        let rest = best_first(ws, max, k, j + 1);
        if c <= rest {
            assert(cand(ws, max, k, j) == best_first(ws, max, k, j));
        }
    }
}

/// Any feasible packing of `ws` into its lines bounds `best_cost` from
/// above: the best cost is feasible and no worse.
pub proof fn lemma_best_cost_le(ws: Seq<Seq<char>>, max: int, p: Seq<Seq<Seq<char>>>)
    requires
        feasible(p, ws, max),
    ensures
        best_cost(ws, max, p.len() as nat) <= total_cost(p, max),
        best_cost(ws, max, p.len() as nat) < inf_cost(),
    decreases p.len(),
{
    lemma_total_cost_bounds(p, max);
    if p.len() == 0 {
        assert(ws.len() == 0);
    } else {
        let head = p[0];
        let j = head.len() as int;
        assert(line_ok(head, max));
        assert(flat(p) == head + flat(p.drop_first()));
        assert(head =~= ws.take(j));
        assert(flat(p.drop_first()) =~= ws.skip(j));
        assert(feasible(p.drop_first(), ws.skip(j), max)) by {
            assert(forall|i: int|
                0 <= i < p.drop_first().len() ==> p.drop_first()[i] == p[i + 1]);
        }
        lemma_best_cost_le(ws.skip(j), max, p.drop_first());
        lemma_total_cost_bounds(p.drop_first(), max);
        lemma_line_cost_nonneg(head, max);
        let bc = best_cost(ws.skip(j), max, (p.len() - 1) as nat);
        assert(cand(ws, max, p.len() as nat, j) <= sat_add_spec(line_cost(head, max), bc)) by {
            assert(ws.take(j) == head);
        }
        assert(sat_add_spec(line_cost(head, max), bc) <= sat_add_spec(
            line_cost(head, max),
            total_cost(p.drop_first(), max),
        ));
        lemma_best_first_le_cand(ws, max, p.len() as nat, 1, j);
    }
}

/// A feasible line count never exceeds the word count: every line holds
/// at least one word.
pub proof fn lemma_best_cost_k_bound(ws: Seq<Seq<char>>, max: int, k: nat)
    requires
        best_cost(ws, max, k) < inf_cost(),
    ensures
        k <= ws.len(),
    decreases k,
{
    if k > 0 {
        lemma_best_first_bounds(ws, max, k, 1);
        let m = choose|m: int|
            1 <= m <= ws.len() && #[trigger] cand(ws, max, k, m) == best_first(ws, max, k, 1);
        assert(cand(ws, max, k, m) < inf_cost());
        lemma_best_cost_k_bound(ws.skip(m), max, (k - 1) as nat);
    }
}

/// When the best cost is feasible, the scan from `j` finds the first
/// candidate attaining it, within range.
proof fn lemma_pick_from_ok(ws: Seq<Seq<char>>, max: int, k: nat, j: int, target: int)
    requires
        k >= 1,
        1 <= j <= ws.len(),
        best_first(ws, max, k, j) == target,
        target < inf_cost(),
    ensures
        j <= pick_from(ws, max, k, j, target) <= ws.len(),
        cand(ws, max, k, pick_from(ws, max, k, j, target)) == target,
    decreases ws.len() - j,
{
    let c = cand(ws, max, k, j);
    let rest = best_first(ws, max, k, j + 1);
    if c == target {
    } else {
        assert(c > rest && rest == target);
        assert(j + 1 <= ws.len()) by {
            if j == ws.len() {
                assert(best_first(ws, max, k, j + 1) == inf_cost());
            }
        }
        lemma_pick_from_ok(ws, max, k, j + 1, target);
    }
}

/// The balanced packing is feasible, has exactly `k` legal, well-formed
/// lines holding the words of `ws` in order, and attains the best cost.
pub proof fn lemma_balanced_props(ws: Seq<Seq<char>>, max: int, k: nat)
    requires
        wf_words(ws),
        best_cost(ws, max, k) < inf_cost(),
    ensures
        balanced_spec(ws, max, k).len() == k,
        flat(balanced_spec(ws, max, k)) == ws,
        lines_ok(balanced_spec(ws, max, k), max),
        total_cost(balanced_spec(ws, max, k), max) == best_cost(ws, max, k),
    decreases k,
{
    let b = balanced_spec(ws, max, k);
    if k == 0 {
        assert(ws =~= Seq::<Seq<char>>::empty());
        assert(flat(b) =~= ws);
    } else {
        let target = best_cost(ws, max, k);
        lemma_pick_from_ok(ws, max, k, 1, target);
        let m = pick_from(ws, max, k, 1, target);
        assert(cand(ws, max, k, m) == target);
        let head = ws.take(m);
        let tail_cost = best_cost(ws.skip(m), max, (k - 1) as nat);
        assert(line_ok(head, max) && tail_cost < inf_cost() && target == sat_add_spec(
            line_cost(head, max),
            tail_cost,
        ));
        assert(wf_words(ws.skip(m))) by {
            assert(forall|i: int|
                0 <= i < ws.skip(m).len() ==> ws.skip(m)[i] == ws[i + m]);
        }
        lemma_balanced_props(ws.skip(m), max, (k - 1) as nat);
        let bt = balanced_spec(ws.skip(m), max, (k - 1) as nat);
        assert(b == seq![head] + bt);
        assert(b.drop_first() =~= bt);
        assert(b[0] == head);
        assert(flat(b) == head + flat(bt));
        assert(head + ws.skip(m) =~= ws);
        assert(wf_words(head)) by {
            assert(forall|i: int| 0 <= i < head.len() ==> head[i] == ws[i]);
        }
        assert forall|i: int| 0 <= i < b.len() implies line_ok(#[trigger] b[i], max) && wf_words(
            b[i],
        ) by {
            if i > 0 {
                assert(b[i] == bt[i - 1]);
            }
        }
        assert(total_cost(b, max) == sat_add_spec(line_cost(head, max), total_cost(bt, max)));
    }
}

/// The greedy packing of `ws` is itself a feasible packing, so the best
/// cost over its line count is feasible.
pub proof fn lemma_greedy_feasible(ws: Seq<Seq<char>>, max: int)
    requires
        wf_words(ws),
    ensures
        feasible(greedy_spec(ws, max), ws, max),
        lines_ok(greedy_spec(ws, max), max),
        best_cost(ws, max, greedy_spec(ws, max).len() as nat) <= total_cost(
            greedy_spec(ws, max),
            max,
        ),
        best_cost(ws, max, greedy_spec(ws, max).len() as nat) < inf_cost(),
{
    lemma_greedy_rec_flat(Seq::<Seq<char>>::empty(), ws, max);
    assert(Seq::<Seq<char>>::empty() + ws =~= ws);
    lemma_greedy_rec_ok(Seq::<Seq<char>>::empty(), ws, max);
    lemma_best_cost_le(ws, max, greedy_spec(ws, max));
}

/// The cost value a table entry stands for: `None` marks infeasibility.
pub open spec fn opt_u(o: Option<u128>) -> int {
    match o {
        Some(v) => v as int,
        None => inf_cost(),
    }
}

/// A prefix-sum table over the word lengths, with enough headroom to add
/// a word count without overflow.
pub open spec fn pre_ok(pre: Seq<u128>, ws: Seq<Seq<char>>) -> bool {
    &&& pre.len() == ws.len() + 1
    &&& forall|u: int| 0 <= u <= ws.len() ==> #[trigger] pre[u] as int == sum_lens(ws.take(u))
    &&& pre[ws.len() as int] as int + ws.len() <= u128::MAX as int
}

/// One table row: entry `u` is the best cost of packing the words from
/// `u` on into exactly `q` lines.
pub open spec fn row_ok(row: Seq<Option<u128>>, ws: Seq<Seq<char>>, max: int, q: nat) -> bool {
    &&& row.len() == ws.len() + 1
    &&& forall|u: int|
        0 <= u <= ws.len() ==> opt_u(#[trigger] row[u]) == best_cost(ws.skip(u), max, q)
}

fn sat_add_exec(a: u128, b: u128) -> (r: u128)
    ensures
        r as int == sat_add_spec(a as int, b as int),
{
    if a > u128::MAX - b {
        u128::MAX
    } else {
        a + b
    }
}

fn opt_min_exec(a: Option<u128>, b: Option<u128>) -> (r: Option<u128>)
    ensures
        opt_u(r) == if opt_u(a) <= opt_u(b) {
            opt_u(a)
        } else {
            opt_u(b)
        },
{
    match (a, b) {
        (Some(x), Some(y)) => if x <= y {
            Some(x)
        } else {
            Some(y)
        },
        (Some(x), None) => Some(x),
        (None, y) => y,
    }
}

/// The width of the words from `i` to `j`, read off the prefix sums.
proof fn lemma_width_from_pre(ws: Seq<Seq<char>>, i: int, j: int)
    requires
        0 <= i < j <= ws.len(),
    ensures
        line_width(ws.subrange(i, j)) == sum_lens(ws.take(j)) - sum_lens(ws.take(i)) + (j - i)
            - 1,
        sum_lens(ws.take(i)) <= sum_lens(ws.take(j)),
{
    assert(ws.take(j) =~= ws.take(i) + ws.subrange(i, j));
    lemma_sum_lens_concat(ws.take(i), ws.subrange(i, j));
    lemma_sum_lens_nonneg(ws.subrange(i, j));
}

/// The candidate cost of breaking the first line of `ws.skip(i)` after
/// `j - i` words, combined with the best cost of the remainder from the
/// previous table row.
fn cand_exec(
    pre: &Vec<u128>,
    prev: &Vec<Option<u128>>,
    i: usize,
    j: usize,
    max_length: usize,
    Ghost(ws): Ghost<Seq<Seq<char>>>,
    Ghost(r): Ghost<nat>,
) -> (c: Option<u128>)
    requires
        pre_ok(pre@, ws),
        row_ok(prev@, ws, max_length as int, (r - 1) as nat),
        r >= 1,
        i < j <= ws.len(),
    ensures
        opt_u(c) == cand(ws.skip(i as int), max_length as int, r, (j - i) as int),
{
    let ghost max = max_length as int;
    let ghost si = ws.skip(i as int);
    let ghost m = (j - i) as int;
    proof {
        assert(si.take(m) =~= ws.subrange(i as int, j as int));
        assert(si.skip(m) =~= ws.skip(j as int));
        lemma_width_from_pre(ws, i as int, j as int);
        assert(ws.take(ws.len() as int) =~= ws);
        if (j as int) < ws.len() {
            lemma_width_from_pre(ws, j as int, ws.len() as int);
        }
    }
    let wsum = pre[j] - pre[i];
    let wd = wsum + ((j - i - 1) as u128);
    let maxu = max_length as u128;
    proof {
        assert(wd as int == line_width(si.take(m)));
        assert(maxu as int == max);
    }
    if wd <= maxu {
        let sf = maxu - wd;
        proof {
            assert(sf as int <= u64::MAX as int);
            assert((sf as int) * (sf as int) <= (u64::MAX as int) * (u64::MAX as int))
                by (nonlinear_arith)
                requires
                    0 <= sf as int <= u64::MAX as int,
            ;
        }
        let lc = sf * sf;
        proof {
            assert(lc as int == line_cost(si.take(m), max));
            assert(line_ok(si.take(m), max));
        }
        match prev[j] {
            Some(bc) => Some(sat_add_exec(lc, bc)),
            None => None,
        }
    } else if j - i == 1 {
        proof {
            assert(line_cost(si.take(m), max) == 0);
            assert(line_ok(si.take(m), max));
        }
        match prev[j] {
            Some(bc) => Some(sat_add_exec(0, bc)),
            None => None,
        }
    } else {
        proof {
            assert(!line_ok(si.take(m), max));
        }
        None
    }
}

/// Finds the balanced break for the first line of the words from `pos`
/// on: the smallest word count whose candidate cost attains `target`.
fn find_break(
    pre: &Vec<u128>,
    prev: &Vec<Option<u128>>,
    pos: usize,
    max_length: usize,
    target: u128,
    Ghost(ws): Ghost<Seq<Seq<char>>>,
    Ghost(r): Ghost<nat>,
) -> (j: usize)
    requires
        pre_ok(pre@, ws),
        row_ok(prev@, ws, max_length as int, (r - 1) as nat),
        r >= 1,
        pos < ws.len(),
        best_cost(ws.skip(pos as int), max_length as int, r) == target as int,
    ensures
        pos < j <= ws.len(),
        (j - pos) as int == pick_from(
            ws.skip(pos as int),
            max_length as int,
            r,
            1,
            target as int,
        ),
        cand(ws.skip(pos as int), max_length as int, r, (j - pos) as int) == target as int,
{
    let ghost max = max_length as int;
    let ghost si = ws.skip(pos as int);
    let n: usize = pre.len() - 1;
    proof {
        lemma_pick_from_ok(si, max, r, 1, target as int);
    }
    let ghost p = pick_from(si, max, r, 1, target as int);
    let mut j: usize = pos + 1;
    while j <= n
        invariant
            pre_ok(pre@, ws),
            row_ok(prev@, ws, max, (r - 1) as nat),
            r >= 1,
            pos < ws.len(),
            n == ws.len(),
            max == max_length as int,
            si == ws.skip(pos as int),
            pos + 1 <= j <= n + 1,
            (j - pos) as int <= p,
            p == pick_from(si, max, r, 1, target as int),
            p == pick_from(si, max, r, (j - pos) as int, target as int),
            1 <= p <= ws.len() - pos,
            cand(si, max, r, p) == target as int,
            (target as int) < inf_cost(),
        decreases n + 1 - j,
    {
        let c = cand_exec(pre, prev, pos, j, max_length, Ghost(ws), Ghost(r));
        let matched = match c {
            Some(v) => v == target,
            None => false,
        };
        proof {
            assert(matched <==> cand(si, max, r, (j - pos) as int) == target as int);
        }
        if matched {
            return j;
        }
        j += 1;
    }
    proof {
        assert(false);
    }
    0
}

/// Packs the words into exactly `k` lines with the least total badness,
/// preferring earlier breakpoints on ties, by dynamic programming over
/// prefix sums of the word lengths.
pub(crate) fn pack_balanced_k(words: &Vec<String>, max_length: usize, k: usize) -> (lines: Vec<
    Vec<String>,
>)
    requires
        best_cost(wv(words@), max_length as int, k as nat) < inf_cost(),
    ensures
        lv(lines@) == balanced_spec(wv(words@), max_length as int, k as nat),
{
    let ghost ws = wv(words@);
    let ghost max = max_length as int;
    let n: usize = words.len();
    // prefix sums of the word lengths
    let mut pre: Vec<u128> = Vec::new();
    pre.push(0);
    proof {
        assert(ws.take(0) =~= Seq::<Seq<char>>::empty());
        assert(sum_lens(ws.take(0)) == 0);
    }
    let mut t: usize = 0;
    while t < n
        invariant
            t <= n,
            n == ws.len(),
            ws == wv(words@),
            pre@.len() == t + 1,
            forall|u: int| 0 <= u <= t ==> #[trigger] pre@[u] as int == sum_lens(ws.take(u)),
            forall|u: int| 0 <= u <= t ==> #[trigger] pre@[u] as int <= u * (u64::MAX as int),
        decreases n - t,
    {
        let wlen = words[t].as_str().unicode_len();
        proof {
            assert(ws[t as int] == words@[t as int]@);
            assert(ws.take(t + 1) =~= ws.take(t as int).push(ws[t as int]));
            crate::model::lemma_sum_lens_push(ws.take(t as int), ws[t as int]);
            assert(wlen as int <= u64::MAX as int);
            assert((t + 1) as int * (u64::MAX as int) <= (u64::MAX as int) * (u64::MAX as int))
                by (nonlinear_arith)
                requires
                    0 <= (t + 1) as int <= u64::MAX as int,
            ;
        }
        let next = pre[t] + (wlen as u128);
        pre.push(next);
        t += 1;
    }
    proof {
        assert(pre_ok(pre@, ws)) by {
            assert(pre@[n as int] as int <= n as int * (u64::MAX as int));
            assert(n as int * (u64::MAX as int) + n as int <= (u64::MAX as int) * (
            u64::MAX as int) + u64::MAX as int) by (nonlinear_arith)
                requires
                    0 <= n as int <= u64::MAX as int,
            ;
        }
    }
    proof {
        lemma_best_cost_k_bound(ws, max, k as nat);
    }
    // the table: row q holds the best cost of packing each suffix into q lines
    let mut table: Vec<Vec<Option<u128>>> = Vec::new();
    let mut row0: Vec<Option<u128>> = Vec::new();
    let mut i0: usize = 0;
    let pre_len: usize = pre.len();
    while i0 < pre_len
        invariant
            i0 <= n + 1,
            pre_len == n + 1,
            n == ws.len(),
            pre@.len() == n + 1,
            row0@.len() == i0,
            max == max_length as int,
            forall|u: int|
                0 <= u < i0 ==> opt_u(#[trigger] row0@[u]) == best_cost(ws.skip(u), max, 0),
        decreases n + 1 - i0,
    {
        proof {
            if i0 == n {
                assert(ws.skip(i0 as int) =~= Seq::<Seq<char>>::empty());
            }
            assert(ws.skip(i0 as int).len() == n - i0);
        }
        if i0 == n {
            row0.push(Some(0));
        } else {
            row0.push(None);
        }
        i0 += 1;
    }
    table.push(row0);
    let mut r: usize = 1;
    while r <= k
        invariant
            1 <= r <= k + 1,
            k <= n,
            pre_len == n + 1,
            n == ws.len(),
            ws == wv(words@),
            max == max_length as int,
            pre_ok(pre@, ws),
            table@.len() == r,
            forall|q: int| 0 <= q < r ==> row_ok(#[trigger] table@[q]@, ws, max, q as nat),
        decreases k + 1 - r,
    {
        let mut row: Vec<Option<u128>> = Vec::new();
        let mut i: usize = 0;
        while i < pre_len
            invariant
                i <= n + 1,
                pre_len == n + 1,
                1 <= r <= k,
                n == ws.len(),
                ws == wv(words@),
                max == max_length as int,
                pre_ok(pre@, ws),
                table@.len() == r,
                forall|q: int| 0 <= q < r ==> row_ok(#[trigger] table@[q]@, ws, max, q as nat),
                row@.len() == i,
                forall|u: int|
                    0 <= u < i ==> opt_u(#[trigger] row@[u]) == best_cost(
                        ws.skip(u),
                        max,
                        r as nat,
                    ),
            decreases n + 1 - i,
        {
            let ghost si = ws.skip(i as int);
            let mut acc: Option<u128> = None;
            let mut j: usize = n;
            proof {
                assert(si.len() == n - i);
                assert(best_first(si, max, r as nat, (n - i + 1) as int) == inf_cost());
            }
            while j > i
                invariant
                    i <= j <= n,
                    i <= n,
                    1 <= r <= k,
                    n == ws.len(),
                    max == max_length as int,
                    si == ws.skip(i as int),
                    pre_ok(pre@, ws),
                    table@.len() == r,
                    forall|q: int|
                        0 <= q < r ==> row_ok(#[trigger] table@[q]@, ws, max, q as nat),
                    opt_u(acc) == best_first(si, max, r as nat, (j - i + 1) as int),
                decreases j,
            {
                let c = cand_exec(
                    &pre,
                    &table[r - 1],
                    i,
                    j,
                    max_length,
                    Ghost(ws),
                    Ghost(r as nat),
                );
                acc = opt_min_exec(c, acc);
                j -= 1;
            }
            proof {
                assert(opt_u(acc) == best_first(si, max, r as nat, 1));
                assert(best_cost(si, max, r as nat) == best_first(si, max, r as nat, 1));
            }
            row.push(acc);
            i += 1;
        }
        table.push(row);
        r += 1;
    }
    // walk the table forward, always taking the earliest break that
    // attains the best cost
    let mut out: Vec<Vec<String>> = Vec::new();
    let mut pos: usize = 0;
    let mut rem: usize = k;
    proof {
        assert(ws.skip(0) =~= ws);
        assert(lv(out@) + balanced_spec(ws, max, k as nat) =~= balanced_spec(ws, max, k as nat));
    }
    while rem > 0
        invariant
            pos <= n,
            rem <= k,
            n == ws.len(),
            ws == wv(words@),
            max == max_length as int,
            pre_ok(pre@, ws),
            table@.len() == k + 1,
            forall|q: int| 0 <= q <= k ==> row_ok(#[trigger] table@[q]@, ws, max, q as nat),
            best_cost(ws.skip(pos as int), max, rem as nat) < inf_cost(),
            balanced_spec(ws, max, k as nat) == lv(out@) + balanced_spec(
                ws.skip(pos as int),
                max,
                rem as nat,
            ),
        decreases rem,
    {
        let ghost si = ws.skip(pos as int);
        proof {
            if pos == n {
                assert(si =~= Seq::<Seq<char>>::empty());
                assert(best_first(si, max, rem as nat, 1) == inf_cost());
            }
        }
        let target_opt = table[rem][pos];
        let target: u128 = match target_opt {
            Some(v) => v,
            None => {
                proof {
                    assert(false);
                }
                0
            },
        };
        let j = find_break(
            &pre,
            &table[rem - 1],
            pos,
            max_length,
            target,
            Ghost(ws),
            Ghost(rem as nat),
        );
        let ghost m = (j - pos) as int;
        let mut line: Vec<String> = Vec::new();
        let mut t2: usize = pos;
        proof {
            assert(wv(line@) =~= ws.subrange(pos as int, pos as int));
        }
        while t2 < j
            invariant
                pos <= t2 <= j <= n,
                n == ws.len(),
                ws == wv(words@),
                wv(line@) == ws.subrange(pos as int, t2 as int),
            decreases j - t2,
        {
            let w: String = words[t2].clone();
            proof {
                assert(wv(line@.push(w)) =~= wv(line@).push(w@));
                assert(ws.subrange(pos as int, t2 as int).push(ws[t2 as int]) =~= ws.subrange(
                    pos as int,
                    t2 + 1,
                ));
            }
            line.push(w);
            t2 += 1;
        }
        proof {
            let target_int = target as int;
            assert(cand(si, max, rem as nat, m) == target_int);
            assert(line_ok(si.take(m), max) && best_cost(ws.skip(j as int), max, (rem - 1) as nat)
                < inf_cost()) by {
                assert(si.skip(m) =~= ws.skip(j as int));
            }
            assert(balanced_spec(si, max, rem as nat) == seq![si.take(m)] + balanced_spec(
                si.skip(m),
                max,
                (rem - 1) as nat,
            ));
            assert(si.take(m) =~= ws.subrange(pos as int, j as int));
            assert(si.skip(m) =~= ws.skip(j as int));
            assert(lv(out@.push(line)) =~= lv(out@).push(wv(line@)));
            assert(lv(out@) + (seq![si.take(m)] + balanced_spec(
                ws.skip(j as int),
                max,
                (rem - 1) as nat,
            )) =~= lv(out@).push(wv(line@)) + balanced_spec(
                ws.skip(j as int),
                max,
                (rem - 1) as nat,
            ));
        }
        out.push(line);
        pos = j;
        rem -= 1;
    }
    proof {
        assert(ws.skip(pos as int).len() == 0 ==> ws.skip(pos as int)
            =~= Seq::<Seq<char>>::empty());
        if pos < n {
            assert(ws.skip(pos as int).len() > 0);
            assert(best_cost(ws.skip(pos as int), max, 0) == inf_cost());
        }
        assert(balanced_spec(ws.skip(pos as int), max, 0) == Seq::<Seq<Seq<char>>>::empty());
        assert(lv(out@) + Seq::<Seq<Seq<char>>>::empty() =~= lv(out@));
    }
    out
}

/// Packs the words into as many lines as the greedy scan would use,
/// minimizing the total squared shortfall from the width and preferring
/// earlier breakpoints on ties.
pub fn pack_balanced(words: &Vec<String>, max_length: usize) -> (lines: Vec<Vec<String>>)
    requires
        wf_words(wv(words@)),
    ensures
        lv(lines@) == balanced_spec(
            wv(words@),
            max_length as int,
            greedy_spec(wv(words@), max_length as int).len() as nat,
        ),
{
    let g = crate::greedy::pack_greedy(words, max_length);
    let k = g.len();
    proof {
        lemma_greedy_feasible(wv(words@), max_length as int);
        assert(lv(g@).len() == g@.len());
    }
    pack_balanced_k(words, max_length, k)
}

} // verus!
