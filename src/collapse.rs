//! Collapsing runs of rows that belong to one entity down to their best row,
//! ranked best first.
//!
//! Runs are found by contiguity: rows of one entity that are not adjacent in
//! the filter form separate runs, and each run keeps its own best row.
use vstd::prelude::*;
use itertools::Itertools;
use crate::filter::Filter;

verus! {

/// The number of rows covered by the first `j` runs of `lens`.
pub open spec fn run_bound(lens: Seq<usize>, j: int) -> int
    decreases j,
{
    if j <= 0 {
        0
    } else {
        run_bound(lens, j - 1) + lens[j - 1]
    }
}

/// `lens` splits `keys` into maximal runs of equal adjacent keys, in order.
pub open spec fn is_run_split(keys: Seq<u32>, lens: Seq<usize>) -> bool {
    &&& run_bound(lens, lens.len() as int) == keys.len()
    &&& forall|j: int| 0 <= j < lens.len() ==> #[trigger] lens[j] > 0
    &&& forall|j: int, k: int|
        0 <= j < lens.len() && run_bound(lens, j) <= k < run_bound(lens, j + 1) ==> #[trigger] keys[k]
            == keys[#[trigger] run_bound(lens, j)]
    &&& forall|j: int|
        0 < j < lens.len() ==> keys[#[trigger] run_bound(lens, j) - 1] != keys[run_bound(lens, j)]
}

/// The length of each run of equal adjacent keys, in order.
///
/// Relies on `Itertools::group_by`: it yields, in order, one group for each
/// maximal run of consecutive elements whose keys are equal.
#[verifier::external_body]
fn run_lengths(keys: &Vec<u32>) -> (r: Vec<usize>)
    ensures
        is_run_split(keys@, r@),
{
    let groups = keys.iter().group_by(|k| **k);
    let r = groups.into_iter().map(|(_, g)| g.count()).collect();
    r
}

/// The number of runs of equal adjacent keys among the first `n` keys.
pub open spec fn run_count(keys: Seq<u32>, n: int) -> nat
    decreases n,
{
    if n <= 0 {
        0
    } else if n == 1 || keys[n - 2] != keys[n - 1] {
        run_count(keys, n - 1) + 1
    } else {
        run_count(keys, n - 1)
    }
}

/// Positions `i` and `j` lie in one run: every key between them equals the
/// key at `i`.
pub open spec fn same_run(keys: Seq<u32>, i: int, j: int) -> bool {
    forall|k: int| (i <= k <= j || j <= k <= i) ==> #[trigger] keys[k] == keys[i]
}

/// `above` is a strict ranking of the rows of `rows`: `above(x, y)` says that
/// row `x` ranks strictly higher than row `y`. It is irreflexive and
/// transitive, and ranking no higher is transitive too.
pub open spec fn is_strict_ranking(above: spec_fn(u32, u32) -> bool, rows: Seq<u32>) -> bool {
    &&& forall|i: int| 0 <= i < rows.len() ==> !above(#[trigger] rows[i], rows[i])
    &&& forall|i: int, j: int, k: int|
        0 <= i < rows.len() && 0 <= j < rows.len() && 0 <= k < rows.len() && #[trigger] above(rows[i], rows[j])
            && #[trigger] above(rows[j], rows[k]) ==> above(rows[i], rows[k])
    &&& forall|i: int, j: int, k: int|
        0 <= i < rows.len() && 0 <= j < rows.len() && 0 <= k < rows.len() && !#[trigger] above(rows[i], rows[j])
            && !#[trigger] above(rows[j], rows[k]) ==> !above(rows[i], rows[k])
}

/// Position `i` holds the best row of its run: no row of the run ranks
/// higher, and every later row of the run ranks lower.
pub open spec fn is_best(list: Seq<u32>, keys: Seq<u32>, above: spec_fn(u32, u32) -> bool, i: int) -> bool {
    &&& 0 <= i < keys.len()
    &&& forall|j: int| 0 <= j < keys.len() && #[trigger] same_run(keys, i, j) ==> !above(list[j], list[i])
    &&& forall|j: int| i < j < keys.len() && #[trigger] same_run(keys, i, j) ==> above(list[i], list[j])
}

/// Position `p` comes before position `q` in rank order: higher rank first,
/// and on equal rank the earlier position first.
pub open spec fn ranked_before(list: Seq<u32>, above: spec_fn(u32, u32) -> bool, p: int, q: int) -> bool {
    above(list[p], list[q]) || (!above(list[q], list[p]) && p < q)
}

/// Each answer of `compare` on two rows of `list` agrees with `above`.
pub open spec fn answers_by<F: Fn(u32, u32) -> std::cmp::Ordering>(
    compare: F,
    above: spec_fn(u32, u32) -> bool,
    list: Seq<u32>,
) -> bool {
    &&& forall|i: int, j: int|
        0 <= i < list.len() && 0 <= j < list.len() ==> call_requires(compare, (#[trigger] list[i], #[trigger] list[j]))
    &&& forall|i: int, j: int, o: std::cmp::Ordering|
        0 <= i < list.len() && 0 <= j < list.len() && #[trigger] call_ensures(compare, (list[i], list[j]), o) ==> {
            &&& (o == std::cmp::Ordering::Greater <==> above(list[i], list[j]))
            &&& (o == std::cmp::Ordering::Less <==> above(list[j], list[i]))
        }
}

/// Within run `j` of a split, `same_run` holds exactly for the positions of
/// that run.
proof fn lemma_run_members(keys: Seq<u32>, lens: Seq<usize>, j: int, i: int, q: int)
    requires
        is_run_split(keys, lens),
        0 <= j < lens.len(),
        run_bound(lens, j) <= i < run_bound(lens, j + 1),
        0 <= q < keys.len(),
    ensures
        same_run(keys, i, q) <==> run_bound(lens, j) <= q < run_bound(lens, j + 1),
{
    let s = run_bound(lens, j);
    let e = run_bound(lens, j + 1);
    lemma_run_bound_monotonic(lens, j + 1, lens.len() as int);
    assert(keys[i] == keys[s]);
    if s <= q < e {
        assert forall|k: int| (i <= k <= q || q <= k <= i) implies #[trigger] keys[k] == keys[i] by {
            assert(keys[k] == keys[s]);
        }
    }
    if q < s {
        assert(j > 0);
        if same_run(keys, i, q) {
            assert(keys[s - 1] == keys[i]);
            assert(keys[s] == keys[i]);
        }
    }
    if q >= e {
        assert(j + 1 < lens.len()) by {
            if j + 1 == lens.len() {
                assert(e == keys.len());
            }
        }
        assert(lens[j + 1] > 0);
        if same_run(keys, i, q) {
            assert(keys[e - 1] == keys[i]);
            assert(keys[e] == keys[i]);
        }
    }
}

proof fn lemma_run_bound_monotonic(lens: Seq<usize>, j1: int, j2: int)
    requires
        0 <= j1 <= j2 <= lens.len(),
    ensures
        run_bound(lens, j1) <= run_bound(lens, j2),
    decreases j2 - j1,
{
    if j1 < j2 {
        lemma_run_bound_monotonic(lens, j1, j2 - 1);
    }
}

/// What an answer of `compare` says of the ranking.
proof fn lemma_answer<F: Fn(u32, u32) -> std::cmp::Ordering>(
    compare: F,
    above: spec_fn(u32, u32) -> bool,
    list: Seq<u32>,
    i: int,
    j: int,
    o: std::cmp::Ordering,
)
    requires
        answers_by(compare, above, list),
        0 <= i < list.len(),
        0 <= j < list.len(),
        call_ensures(compare, (list[i], list[j]), o),
    ensures
        o == std::cmp::Ordering::Greater <==> above(list[i], list[j]),
        o == std::cmp::Ordering::Less <==> above(list[j], list[i]),
{
}

/// The positions of the best row of each run of `keys`, ranked best first.
fn best_positions<F: Fn(u32, u32) -> std::cmp::Ordering>(
    list: &Vec<u32>,
    keys: &Vec<u32>,
    compare: F,
    Ghost(above): Ghost<spec_fn(u32, u32) -> bool>,
) -> (r: Vec<usize>)
    requires
        keys.len() == list.len(),
        is_strict_ranking(above, list@),
        answers_by(compare, above, list@),
    ensures
        r@.len() == run_count(keys@, keys@.len() as int),
        forall|p: usize| r@.contains(p) <==> is_best(list@, keys@, above, p as int),
        forall|a: int, b: int|
            0 <= a < b < r@.len() ==> ranked_before(list@, above, r@[a] as int, r@[b] as int),
{
    let lens = run_lengths(keys);
    let ghost ks = keys@;
    let ghost l = list@;
    let n = keys.len();
    let mut out: Vec<usize> = Vec::new();
    let mut start: usize = 0;
    let mut j: usize = 0;
    while j < lens.len()
        invariant
            ks == keys@,
            l == list@,
            ks.len() == l.len(),
            n == ks.len(),
            is_strict_ranking(above, l),
            answers_by(compare, above, l),
            is_run_split(ks, lens@),
            j <= lens.len(),
            start == run_bound(lens@, j as int),
            start <= ks.len(),
            out@.len() == run_count(ks, start as int),
            forall|t: int| 0 <= t < out@.len() ==> out@[t] < start,
            forall|p: usize| out@.contains(p) <==> (p < start && is_best(l, ks, above, p as int)),
            forall|a: int, b: int|
                0 <= a < b < out@.len() ==> ranked_before(l, above, out@[a] as int, out@[b] as int),
        decreases lens.len() - j,
    {
        proof {
            lemma_run_bound_monotonic(lens@, j + 1, lens@.len() as int);
            assert(run_bound(lens@, j + 1) == run_bound(lens@, j as int) + lens@[j as int]);
            assert(run_bound(lens@, j + 1) <= ks.len());
        }
        let end = start + lens[j];
        assert(end == run_bound(lens@, j + 1));
        // Find the last highest-ranked position of the run.
        let mut best: usize = start;
        let mut k: usize = start + 1;
        proof {
            if start > 0 {
                assert(j > 0);
                assert(ks[start - 1] != ks[start as int]);
            }
            assert(!above(l[start as int], l[start as int]));
        }
        assert(run_count(ks, k as int) == run_count(ks, start as int) + 1);
        while k < end
            invariant
                ks == keys@,
                l == list@,
                ks.len() == l.len(),
                is_strict_ranking(above, l),
                answers_by(compare, above, l),
                is_run_split(ks, lens@),
                j < lens.len(),
                start == run_bound(lens@, j as int),
                end == run_bound(lens@, j + 1),
                end <= ks.len(),
                start <= best < k <= end,
                run_count(ks, k as int) == run_count(ks, start as int) + 1,
                forall|q: int| start <= q < k ==> !above(l[q], l[best as int]),
                forall|q: int| best < q < k ==> above(l[best as int], l[q]),
            decreases end - k,
        {
            assert(ks[k - 1] == ks[start as int] && ks[k as int] == ks[start as int]);
            let o = compare(list[k], list[best]);
            proof {
                lemma_answer(compare, above, l, k as int, best as int, o);
            }
            if !matches!(o, std::cmp::Ordering::Less) {
                proof {
                    assert forall|q: int| start <= q < k + 1 implies !above(l[q], l[k as int]) by {
                        if q < k {
                            assert(!above(l[q], l[best as int]));
                            assert(!above(l[best as int], l[k as int]));
                        }
                    }
                }
                best = k;
            } else {
                proof {
                    assert(above(l[best as int], l[k as int]));
                    if above(l[k as int], l[best as int]) {
                        assert(above(l[best as int], l[best as int]));
                    }
                }
            }
            k += 1;
        }
        proof {
            assert forall|q: int| 0 <= q < ks.len() && #[trigger] same_run(ks, best as int, q) implies !above(l[q], l[best as int]) by {
                lemma_run_members(ks, lens@, j as int, best as int, q);
            }
            assert forall|q: int| best < q < ks.len() && #[trigger] same_run(ks, best as int, q) implies above(l[best as int], l[q]) by {
                lemma_run_members(ks, lens@, j as int, best as int, q);
            }
            assert(is_best(l, ks, above, best as int));
        }
        // Insert after every entry that ranks at least as high.
        let mut q: usize = 0;
        let mut found = false;
        while !found && q < out.len()
            invariant
                l == list@,
                answers_by(compare, above, l),
                best < l.len(),
                q <= out@.len(),
                forall|t: int| 0 <= t < out@.len() ==> out@[t] < l.len(),
                forall|t: int| 0 <= t < q ==> !above(l[best as int], l[out@[t] as int]),
                found ==> q < out@.len() && above(l[best as int], l[out@[q as int] as int]),
            decreases out@.len() - q + (if found { 0int } else { 1int }),
        {
            let o = compare(list[out[q]], list[best]);
            proof {
                lemma_answer(compare, above, l, out@[q as int] as int, best as int, o);
            }
            if matches!(o, std::cmp::Ordering::Less) {
                found = true;
            } else {
                q += 1;
            }
        }
        let ghost prev = out@;
        proof {
            if q < prev.len() {
                assert(above(l[best as int], l[prev[q as int] as int]));
            }
        }
        out.insert(q, best);
        proof {
            assert forall|a: int, b: int| 0 <= a < b < out@.len() implies ranked_before(l, above, out@[a] as int, out@[b] as int) by {
                if a < q && b == q {
                    assert(prev[a] < start);
                } else if a == q && b > q {
                    let c = prev[b - 1];
                    let d = prev[q as int];
                    assert(above(l[best as int], l[d as int]));
                    if b - 1 > q {
                        assert(ranked_before(l, above, d as int, c as int));
                        if above(l[d as int], l[c as int]) {
                            assert(above(l[best as int], l[c as int]));
                        } else {
                            assert(!above(l[c as int], l[d as int]));
                            if !above(l[best as int], l[c as int]) {
                                assert(!above(l[best as int], l[d as int]));
                            }
                        }
                    }
                    if above(l[c as int], l[best as int]) {
                        assert(above(l[best as int], l[best as int]));
                    }
                } else if a < q && b > q {
                    assert(ranked_before(l, above, prev[a] as int, prev[b - 1] as int));
                } else if a > q {
                    assert(ranked_before(l, above, prev[a - 1] as int, prev[b - 1] as int));
                } else {
                    assert(ranked_before(l, above, prev[a] as int, prev[b] as int));
                }
            }
            assert forall|p: usize| out@.contains(p) implies (p < end && is_best(l, ks, above, p as int)) by {
                let t = choose|t: int| 0 <= t < out@.len() && out@[t] == p;
                if t != q {
                    let u = if t < q { t } else { t - 1 };
                    assert(prev[u] == p);
                    assert(prev.contains(p));
                }
            }
            assert forall|p: usize| (p < end && is_best(l, ks, above, p as int)) implies out@.contains(p) by {
                if p < start {
                    assert(prev.contains(p));
                    let t = choose|t: int| 0 <= t < prev.len() && prev[t] == p;
                    let u = if t < q { t } else { t + 1 };
                    assert(out@[u] == p);
                } else {
                    lemma_run_members(ks, lens@, j as int, p as int, best as int);
                    lemma_run_members(ks, lens@, j as int, best as int, p as int);
                    if (p as int) < best {
                        assert(same_run(ks, p as int, best as int));
                    } else if (p as int) > best {
                        assert(same_run(ks, best as int, p as int));
                    }
                    assert(out@[q as int] == p);
                }
            }
        }
        start = end;
        j += 1;
    }
    assert forall|p: usize| is_best(l, ks, above, p as int) implies p < start by {}
    out
}

/// The grouping key of each entry of `list`, read from the column `keys`.
pub open spec fn entry_keys(list: Seq<u32>, keys: Seq<u32>) -> Seq<u32> {
    list.map_values(|x: u32| keys[x as int])
}

/// Every index of `list` names a row of a column of length `len`.
pub open spec fn rows_in_range(list: Seq<u32>, len: nat) -> bool {
    forall|i: int| 0 <= i < list.len() ==> #[trigger] list[i] < len
}

/// The answer of `compare` on rows `x` and `y`.
pub open spec fn cmp_of<F: Fn(u32, u32) -> std::cmp::Ordering>(compare: F, x: u32, y: u32) -> std::cmp::Ordering {
    choose|o: std::cmp::Ordering| call_ensures(compare, (x, y), o)
}

/// Row `x` ranks strictly higher than row `y` when `compare` answers
/// `Greater` on them.
pub open spec fn ranks_above<F: Fn(u32, u32) -> std::cmp::Ordering>(compare: F) -> spec_fn(u32, u32) -> bool {
    |x: u32, y: u32| cmp_of(compare, x, y) == std::cmp::Ordering::Greater
}

/// `compare` is a total order on the rows of `list`: it accepts any two of
/// them, gives one answer for each pair, the mirrored answer when the pair is
/// swapped, and ranks transitively.
pub open spec fn is_total_order_on<F: Fn(u32, u32) -> std::cmp::Ordering>(compare: F, list: Seq<u32>) -> bool {
    &&& forall|i: int, j: int|
        0 <= i < list.len() && 0 <= j < list.len() ==> call_requires(compare, (#[trigger] list[i], #[trigger] list[j]))
    &&& forall|i: int, j: int, o: std::cmp::Ordering|
        0 <= i < list.len() && 0 <= j < list.len() && #[trigger] call_ensures(compare, (list[i], list[j]), o)
            ==> o == cmp_of(compare, list[i], list[j])
    &&& forall|i: int, j: int|
        0 <= i < list.len() && 0 <= j < list.len() ==> (cmp_of(compare, #[trigger] list[i], #[trigger] list[j])
            == std::cmp::Ordering::Less <==> cmp_of(compare, list[j], list[i]) == std::cmp::Ordering::Greater)
    &&& is_strict_ranking(ranks_above(compare), list)
}

/// Row `x` has more Wilks points than row `y`.
pub open spec fn wilks_above(wilks: Seq<i32>) -> spec_fn(u32, u32) -> bool {
    |x: u32, y: u32| wilks[x as int] > wilks[y as int]
}

/// `out` is `list` collapsed by the key column `keys` and ranked by `above`:
/// it holds one index per run of adjacent entries with equal keys, namely
/// the last highest-ranked index of that run, and lists them from the highest
/// rank down, equal ranks in their order in `list`.
pub open spec fn is_ranked_collapse(
    list: Seq<u32>,
    keys: Seq<u32>,
    above: spec_fn(u32, u32) -> bool,
    out: Seq<u32>,
) -> bool {
    let ks = entry_keys(list, keys);
    &&& out.len() == run_count(ks, ks.len() as int)
    &&& forall|x: u32|
        out.contains(x) <==> exists|i: int| 0 <= i < list.len() && list[i] == x && #[trigger] is_best(list, ks, above, i)
    &&& forall|a: int, b: int|
        0 <= a < b < out.len() ==> above(out[a], out[b]) || (!above(out[b], out[a]) && out[a] < out[b])
}

impl Filter {
    /// The grouping key of each entry, read from the column `lifter_ids`.
    fn entry_keys_of(&self, lifter_ids: &Vec<u32>) -> (ks: Vec<u32>)
        requires
            rows_in_range(self@, lifter_ids@.len()),
        ensures
            ks@ == entry_keys(self@, lifter_ids@),
    {
        let mut ks: Vec<u32> = Vec::new();
        let mut i: usize = 0;
        while i < self.list.len()
            invariant
                rows_in_range(self@, lifter_ids@.len()),
                i <= self@.len(),
                ks@ == entry_keys(self@, lifter_ids@).subrange(0, i as int),
            decreases self@.len() - i,
        {
            let x = self.list[i];
            ks.push(lifter_ids[x as usize]);
            i += 1;
            assert(ks@ =~= entry_keys(self@, lifter_ids@).subrange(0, i as int));
        }
        assert(ks@ =~= entry_keys(self@, lifter_ids@));
        ks
    }

    /// The collapse itself, given the key of each entry and a comparator
    /// that answers by `above`.
    fn collapse_entries<F: Fn(u32, u32) -> std::cmp::Ordering>(
        &self,
        ks: &Vec<u32>,
        compare: F,
        Ghost(keys): Ghost<Seq<u32>>,
        Ghost(above): Ghost<spec_fn(u32, u32) -> bool>,
    ) -> (r: Filter)
        requires
            self.wf(),
            ks@ == entry_keys(self@, keys),
            is_strict_ranking(above, self@),
            answers_by(compare, above, self@),
        ensures
            is_ranked_collapse(self@, keys, above, r@),
    {
        let pos = best_positions(&self.list, ks, compare, Ghost(above));
        let ghost l = self@;
        let mut list: Vec<u32> = Vec::new();
        let mut t: usize = 0;
        assert forall|u: int| 0 <= u < pos@.len() implies (#[trigger] pos@[u] as int) < l.len() by {
            assert(pos@.contains(pos@[u]));
        }
        while t < pos.len()
            invariant
                l == self@,
                ks@.len() == l.len(),
                t <= pos@.len(),
                list@.len() == t,
                forall|u: int| 0 <= u < pos@.len() ==> (#[trigger] pos@[u] as int) < l.len(),
                forall|u: int| 0 <= u < t ==> #[trigger] list@[u] == l[pos@[u] as int],
            decreases pos@.len() - t,
        {
            let ghost prev = list@;
            list.push(self.list[pos[t]]);
            assert(list@ == prev.push(l[pos@[t as int] as int]));
            t += 1;
            assert forall|u: int| 0 <= u < t implies #[trigger] list@[u] == l[pos@[u] as int] by {
                if u < t - 1 {
                    assert(list@[u] == prev[u]);
                }
            }
        }
        let n = self.list.len();
        let ghost eks = entry_keys(l, keys);
        assert(eks == ks@);
        assert forall|x: u32| list@.contains(x) implies exists|i: int| 0 <= i < l.len() && l[i] == x && #[trigger] is_best(l, eks, above, i) by {
            let u = choose|u: int| 0 <= u < list@.len() && list@[u] == x;
            assert(pos@.contains(pos@[u]));
            assert(is_best(l, eks, above, pos@[u] as int));
        }
        assert forall|x: u32| (exists|i: int| 0 <= i < l.len() && l[i] == x && #[trigger] is_best(l, eks, above, i)) implies list@.contains(x) by {
            let i = choose|i: int| 0 <= i < l.len() && l[i] == x && #[trigger] is_best(l, eks, above, i);
            let p = i as usize;
            assert(p as int == i);
            assert(is_best(l, ks@, above, p as int));
            assert(pos@.contains(p));
            let u = choose|u: int| 0 <= u < pos@.len() && pos@[u] == p;
            assert(list@[u] == x);
        }
        assert forall|a: int, b: int| 0 <= a < b < list@.len() implies above(list@[a], list@[b]) || (!above(list@[b], list@[a])
            && list@[a] < list@[b]) by {
            assert(ranked_before(l, above, pos@[a] as int, pos@[b] as int));
            assert(pos@.contains(pos@[a]) && pos@.contains(pos@[b]));
        }
        Filter { list }
    }

    /// Keeps, of each run of adjacent entries that share a key in the column
    /// `lifter_ids`, the entry that `compare` ranks highest (the last one on
    /// a tie), and orders those entries from the highest rank down. Entries
    /// of equal rank keep the order of the filter.
    ///
    /// Entries of one key that are not adjacent in the filter form separate
    /// runs.
    pub fn sort_and_unique_by<F: Fn(u32, u32) -> std::cmp::Ordering>(
        &self,
        lifter_ids: &Vec<u32>,
        compare: F,
    ) -> (r: Filter)
        requires
            self.wf(),
            rows_in_range(self@, lifter_ids@.len()),
            is_total_order_on(compare, self@),
        ensures
            is_ranked_collapse(self@, lifter_ids@, ranks_above(compare), r@),
    {
        let ks = self.entry_keys_of(lifter_ids);
        let ghost above = ranks_above(compare);
        let ghost l = self@;
        assert forall|i: int, j: int, o: std::cmp::Ordering|
            0 <= i < l.len() && 0 <= j < l.len() && #[trigger] call_ensures(compare, (l[i], l[j]), o) implies {
                &&& (o == std::cmp::Ordering::Greater <==> above(l[i], l[j]))
                &&& (o == std::cmp::Ordering::Less <==> above(l[j], l[i]))
            } by {
            assert(o == cmp_of(compare, l[i], l[j]));
        }
        self.collapse_entries(&ks, compare, Ghost(lifter_ids@), Ghost(above))
    }

    /// The same collapse as [`Filter::sort_and_unique_by`], ranked by the
    /// column of Wilks points.
    pub fn sort_and_unique_by_wilks(&self, lifter_ids: &Vec<u32>, wilks: &Vec<i32>) -> (r: Filter)
        requires
            self.wf(),
            rows_in_range(self@, lifter_ids@.len()),
            rows_in_range(self@, wilks@.len()),
        ensures
            is_ranked_collapse(self@, lifter_ids@, wilks_above(wilks@), r@),
    {
        let ks = self.entry_keys_of(lifter_ids);
        let compare = |x: u32, y: u32| -> (o: std::cmp::Ordering)
            requires
                (x as int) < wilks@.len(),
                (y as int) < wilks@.len(),
            ensures
                (o == std::cmp::Ordering::Greater) == (wilks@[x as int] > wilks@[y as int]),
                (o == std::cmp::Ordering::Less) == (wilks@[x as int] < wilks@[y as int]),
        {
            let a = wilks[x as usize];
            let b = wilks[y as usize];
            if a > b {
                std::cmp::Ordering::Greater
            } else if a < b {
                std::cmp::Ordering::Less
            } else {
                std::cmp::Ordering::Equal
            }
        };
        self.collapse_entries(&ks, compare, Ghost(lifter_ids@), Ghost(wilks_above(wilks@)))
    }
}

} // verus!
