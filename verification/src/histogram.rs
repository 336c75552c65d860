use vstd::prelude::*;

use crate::reservoir::Reservoir;

use vstd::utf8::char_u32_cast;

verus! {

/// One distinct pooled value with the number of times it occurs in the pool.
/// Its estimated frequency is `count / effective_size` of the histogram that
/// holds it.
pub struct HistogramEntry {
    pub value: String,
    pub count: u64,
}

/// Frequency estimate derived from one reservoir: occurrence counts per
/// distinct pooled value, against a common denominator `effective_size`.
pub struct Histogram {
    pub entries: Vec<HistogramEntry>,
    pub effective_size: u64,
}

/// How many positions of `s` hold exactly `v`.
pub open spec fn occ(s: Seq<Seq<char>>, v: Seq<char>) -> nat
    decreases s.len(),
{
    if s.len() == 0 {
        0
    } else {
        occ(s.drop_last(), v) + if s.last() == v {
            1nat
        } else {
            0nat
        }
    }
}

pub open spec fn sum_u64(s: Seq<u64>) -> int
    decreases s.len(),
{
    if s.len() == 0 {
        0
    } else {
        sum_u64(s.drop_last()) + s.last()
    }
}

pub open spec fn counts_sum(es: Seq<HistogramEntry>) -> int
    decreases es.len(),
{
    if es.len() == 0 {
        0
    } else {
        counts_sum(es.drop_last()) + es.last().count
    }
}

pub open spec fn has_value(es: Seq<HistogramEntry>, v: Seq<char>) -> bool {
    exists|j: int| 0 <= j < es.len() && es[j].value@ == v
}

pub open spec fn distinct_values(es: Seq<HistogramEntry>) -> bool {
    forall|j1: int, j2: int|
        0 <= j1 < j2 < es.len() ==> es[j1].value@ != es[j2].value@
}

proof fn lemma_occ_push(s: Seq<Seq<char>>, x: Seq<char>, v: Seq<char>)
    ensures
        occ(s.push(x), v) == occ(s, v) + if x == v {
            1int
        } else {
            0int
        },
{
    assert(s.push(x).drop_last() =~= s);
    assert(s.push(x).last() == x);
}

proof fn lemma_occ_contains(s: Seq<Seq<char>>, v: Seq<char>)
    ensures
        occ(s, v) > 0 <==> s.contains(v),
    decreases s.len(),
{
    if s.len() > 0 {
        lemma_occ_contains(s.drop_last(), v);
        if s.contains(v) {
            let i = choose|i: int| 0 <= i < s.len() && s[i] == v;
            if i < s.len() - 1 {
                assert(s.drop_last()[i] == v);
                assert(s.drop_last().contains(v));
            }
        }
        if s.drop_last().contains(v) {
            let i = choose|i: int| 0 <= i < s.drop_last().len() && s.drop_last()[i] == v;
            assert(s[i] == v);
        }
    }
}

proof fn lemma_sum_update(s: Seq<u64>, j: int, v: u64)
    requires
        0 <= j < s.len(),
    ensures
        sum_u64(s.update(j, v)) == sum_u64(s) - s[j] + v,
    decreases s.len(),
{
    if j == s.len() - 1 {
        assert(s.update(j, v).drop_last() =~= s.drop_last());
        assert(s.update(j, v).last() == v);
    } else {
        assert(s.update(j, v).drop_last() =~= s.drop_last().update(j, v));
        assert(s.update(j, v).last() == s.last());
        lemma_sum_update(s.drop_last(), j, v);
    }
}

proof fn lemma_sum_push(s: Seq<u64>, v: u64)
    ensures
        sum_u64(s.push(v)) == sum_u64(s) + v,
{
    assert(s.push(v).drop_last() =~= s);
    assert(s.push(v).last() == v);
}

proof fn lemma_counts_sum_push(es: Seq<HistogramEntry>, e: HistogramEntry)
    ensures
        counts_sum(es.push(e)) == counts_sum(es) + e.count,
{
    assert(es.push(e).drop_last() =~= es);
    assert(es.push(e).last() == e);
}

/// Exactly what `to_histogram` promises: the effective size is
/// `min(pool length, num_seen)`; for a positive capacity the entries are
/// precisely the distinct pooled values with their exact occurrence counts,
/// and the counts sum to the pool length; a zero-capacity reservoir yields
/// no entries.
pub open spec fn histogram_post(r: Reservoir, h: Histogram) -> bool {
    let p = r.values();
    &&& h.effective_size == if p.len() <= r.num_seen {
        p.len() as int
    } else {
        r.num_seen as int
    }
    &&& (r.capacity == 0 ==> h.entries@.len() == 0)
    &&& (r.capacity > 0 ==> {
        &&& forall|j: int|
            0 <= j < h.entries@.len() ==> (#[trigger] h.entries@[j]).count == occ(
                p,
                h.entries@[j].value@,
            ) && h.entries@[j].count > 0
        &&& distinct_values(h.entries@)
        &&& forall|i: int| 0 <= i < p.len() ==> has_value(h.entries@, #[trigger] p[i])
        &&& counts_sum(h.entries@) == p.len()
    })
}

fn string_eq(a: &String, b: &String) -> (r: bool)
    ensures
        r == (a@ == b@),
{
    *a == *b
}

impl Reservoir {
    /// Maps each distinct pooled value to its occurrence count; the
    /// estimated frequency of a value is its count over `effective_size`.
    /// A zero-capacity reservoir yields an unconditionally empty mapping.
    pub fn to_histogram(&self) -> (h: Histogram)
        requires
            self.wf(),
        ensures
            histogram_post(*self, h),
    {
        let ghost p = self.values();
        let mut vals: Vec<String> = Vec::new();
        let mut counts: Vec<u64> = Vec::new();
        let mut i: usize = 0;
        while i < self.pool.len()
            invariant
                0 <= i <= self.pool@.len(),
                p == self.values(),
                vals@.len() == counts@.len(),
                forall|j1: int, j2: int|
                    0 <= j1 < j2 < vals@.len() ==> vals.deep_view()[j1] != vals.deep_view()[j2],
                forall|j: int|
                    0 <= j < vals@.len() ==> counts@[j] == occ(
                        p.take(i as int),
                        #[trigger] vals.deep_view()[j],
                    ),
                forall|j: int| 0 <= j < counts@.len() ==> 1 <= #[trigger] counts@[j] <= i,
                forall|t: int|
                    0 <= t < i ==> vals.deep_view().contains(#[trigger] p[t]),
                sum_u64(counts@) == i,
            decreases self.pool@.len() - i,
        {
            let ghost pre_take = p.take(i as int);
            let mut j: usize = 0;
            let mut found: bool = false;
            let mut pos: usize = 0;
            while j < vals.len()
                invariant
                    0 <= j <= vals@.len(),
                    vals@.len() == counts@.len(),
                    i < self.pool@.len(),
                    p == self.values(),
                    found ==> pos < vals@.len() && vals.deep_view()[pos as int] == p[i as int],
                    !found ==> forall|q: int|
                        0 <= q < j ==> vals.deep_view()[q] != p[i as int],
                decreases vals@.len() - j,
            {
                if !found && string_eq(&vals[j], &self.pool[i]) {
                    found = true;
                    pos = j;
                }
                j = j + 1;
            }
            proof {
                assert(p.take(i as int + 1) =~= pre_take.push(p[i as int]));
                assert forall|v: Seq<char>| true implies occ(p.take(i as int + 1), v) == occ(
                    pre_take,
                    v,
                ) + if p[i as int] == v {
                    1int
                } else {
                    0int
                } by {
                    lemma_occ_push(pre_take, p[i as int], v);
                }
            }
            if found {
                let ghost counts_pre = counts@;
                let c = counts[pos];
                counts[pos] = c + 1;
                proof {
                    lemma_sum_update(counts_pre, pos as int, (c + 1) as u64);
                    assert forall|jj: int| 0 <= jj < vals@.len() implies counts@[jj] == occ(
                        p.take(i as int + 1),
                        #[trigger] vals.deep_view()[jj],
                    ) by {
                        if jj != pos {
                            assert(vals.deep_view()[jj] != vals.deep_view()[pos as int]);
                        }
                    }
                    assert(vals.deep_view()[pos as int] == p[i as int]);
                    assert(vals.deep_view().contains(p[i as int]));
                }
            } else {
                let ghost counts_pre = counts@;
                let ghost vals_pre = vals.deep_view();
                let item = self.pool[i].clone();
                vals.push(item);
                counts.push(1);
                proof {
                    lemma_sum_push(counts_pre, 1u64);
                    assert(vals.deep_view() =~= vals_pre.push(p[i as int]));
                    lemma_occ_contains(pre_take, p[i as int]);
                    if pre_take.contains(p[i as int]) {
                        let t = choose|t: int|
                            0 <= t < pre_take.len() && pre_take[t] == p[i as int];
                        assert(p[t] == p[i as int]);
                        assert(vals_pre.contains(p[t]));
                        let q = choose|q: int|
                            0 <= q < vals_pre.len() && vals_pre[q] == p[t];
                        assert(vals_pre[q] != p[i as int]);
                        assert(false);
                    }
                    assert(occ(pre_take, p[i as int]) == 0);
                    assert forall|jj: int| 0 <= jj < vals@.len() implies counts@[jj] == occ(
                        p.take(i as int + 1),
                        #[trigger] vals.deep_view()[jj],
                    ) by {
                        if jj < vals@.len() - 1 {
                            assert(vals.deep_view()[jj] == vals_pre[jj]);
                        }
                    }
                    assert forall|t: int|
                        0 <= t < i + 1 implies vals.deep_view().contains(#[trigger] p[t]) by {
                        if t < i {
                            let q = choose|q: int|
                                0 <= q < vals_pre.len() && vals_pre[q] == p[t];
                            assert(vals.deep_view()[q] == p[t]);
                        } else {
                            assert(vals.deep_view()[vals_pre.len() as int] == p[t]);
                        }
                    }
                }
            }
            i = i + 1;
        }
        proof {
            assert(p.take(self.pool@.len() as int) =~= p);
        }
        let eff: u64 = if (self.pool.len() as u64) <= self.num_seen {
            self.pool.len() as u64
        } else {
            self.num_seen
        };
        if self.capacity == 0 {
            return Histogram { entries: Vec::new(), effective_size: eff };
        }
        let mut entries: Vec<HistogramEntry> = Vec::new();
        let mut k: usize = 0;
        while k < vals.len()
            invariant
                0 <= k <= vals@.len(),
                vals@.len() == counts@.len(),
                entries@.len() == k,
                forall|j: int|
                    0 <= j < k ==> (#[trigger] entries@[j]).value@ == vals.deep_view()[j]
                        && entries@[j].count == counts@[j],
                counts_sum(entries@) == sum_u64(counts@.take(k as int)),
            decreases vals@.len() - k,
        {
            let ghost entries_pre = entries@;
            let e = HistogramEntry { value: vals[k].clone(), count: counts[k] };
            entries.push(e);
            proof {
                lemma_counts_sum_push(entries_pre, e);
                assert(counts@.take(k as int + 1) =~= counts@.take(k as int).push(
                    counts@[k as int],
                ));
                lemma_sum_push(counts@.take(k as int), counts@[k as int]);
            }
            k = k + 1;
        }
        proof {
            assert(counts@.take(counts@.len() as int) =~= counts@);
            assert forall|t: int| 0 <= t < p.len() implies has_value(
                entries@,
                #[trigger] p[t],
            ) by {
                assert(vals.deep_view().contains(p[t]));
                let q = choose|q: int|
                    0 <= q < vals.deep_view().len() && vals.deep_view()[q] == p[t];
                assert(entries@[q].value@ == p[t]);
            }
            assert forall|j1: int, j2: int|
                0 <= j1 < j2 < entries@.len() implies entries@[j1].value@
                != entries@[j2].value@ by {
                assert(entries@[j1].value@ == vals.deep_view()[j1]);
                assert(entries@[j2].value@ == vals.deep_view()[j2]);
            }
        }
        Histogram { entries, effective_size: eff }
    }
}

/// Strict lexicographic order on character sequences.
pub open spec fn lex_lt(a: Seq<char>, b: Seq<char>) -> bool
    decreases a.len(),
{
    if b.len() == 0 {
        false
    } else if a.len() == 0 {
        true
    } else if a[0] == b[0] {
        lex_lt(a.drop_first(), b.drop_first())
    } else {
        (a[0] as u32) < (b[0] as u32)
    }
}

proof fn lemma_lex_irrefl(a: Seq<char>)
    ensures
        !lex_lt(a, a),
    decreases a.len(),
{
    if a.len() > 0 {
        lemma_lex_irrefl(a.drop_first());
    }
}

proof fn lemma_lex_trans(a: Seq<char>, b: Seq<char>, c: Seq<char>)
    requires
        lex_lt(a, b),
        lex_lt(b, c),
    ensures
        lex_lt(a, c),
    decreases a.len(),
{
    if b.len() == 0 || c.len() == 0 || a.len() == 0 {
    } else {
        if a[0] == b[0] && b[0] == c[0] {
            lemma_lex_trans(a.drop_first(), b.drop_first(), c.drop_first());
        }
    }
}

proof fn lemma_lex_connex(a: Seq<char>, b: Seq<char>)
    ensures
        lex_lt(a, b) || lex_lt(b, a) || a == b,
    decreases a.len(),
{
    if b.len() == 0 {
        if a.len() == 0 {
            assert(a =~= b);
        } else {
            assert(lex_lt(b, a));
        }
    } else if a.len() == 0 {
        assert(lex_lt(a, b));
    } else if a[0] == b[0] {
        lemma_lex_connex(a.drop_first(), b.drop_first());
        if a.drop_first() == b.drop_first() {
            assert(a.drop_first().len() == b.drop_first().len());
            assert(a.len() == b.len());
            assert forall|i: int| 0 <= i < a.len() implies a[i] == b[i] by {
                if i > 0 {
                    assert(a[i] == a.drop_first()[i - 1]);
                    assert(b[i] == b.drop_first()[i - 1]);
                    assert(a.drop_first()[i - 1] == b.drop_first()[i - 1]);
                }
            }
            assert(a =~= b);
        }
    } else {
        char_u32_cast(a[0], a[0] as u32);
        char_u32_cast(b[0], b[0] as u32);
        assert((a[0] as u32) != (b[0] as u32));
        assert(lex_lt(a, b) || lex_lt(b, a));
    }
}

/// Relies on str's `Ord`/`PartialOrd`: `<` on string slices is the
/// lexicographic order over their characters (the byte-wise UTF-8
/// comparison that std documents agrees with code-point order).
#[verifier::external_body]
fn str_lt(a: &str, b: &str) -> (r: bool)
    ensures
        r == lex_lt(a@, b@),
{
    a < b
}

/// The ranking used for top-k selection: higher count first, and on equal
/// counts the lexicographically smaller value first.
pub open spec fn rank_before(c1: int, v1: Seq<char>, c2: int, v2: Seq<char>) -> bool {
    c1 > c2 || (c1 == c2 && lex_lt(v1, v2))
}

pub open spec fn rank_before_e(a: HistogramEntry, b: HistogramEntry) -> bool {
    rank_before(a.count as int, a.value@, b.count as int, b.value@)
}

/// Strictly descending by rank: every earlier entry outranks every later
/// one.
pub open spec fn strictly_ranked(s: Seq<HistogramEntry>) -> bool {
    forall|i: int, j: int| 0 <= i < j < s.len() ==> rank_before_e(#[trigger] s[i], #[trigger] s[j])
}

pub open spec fn entry_eq(a: HistogramEntry, b: HistogramEntry) -> bool {
    a.count == b.count && a.value@ == b.value@
}

/// `e` carries the same value and count as some entry of `es`.
pub open spec fn appears_in(e: HistogramEntry, es: Seq<HistogramEntry>) -> bool {
    exists|t: int| 0 <= t < es.len() && entry_eq(e, es[t])
}

proof fn lemma_rank_trans(a: HistogramEntry, b: HistogramEntry, c: HistogramEntry)
    requires
        rank_before_e(a, b),
        rank_before_e(b, c),
    ensures
        rank_before_e(a, c),
{
    if a.count == b.count && b.count == c.count {
        lemma_lex_trans(a.value@, b.value@, c.value@);
    }
}

proof fn lemma_rank_connex(a: HistogramEntry, b: HistogramEntry)
    requires
        a.value@ != b.value@,
    ensures
        rank_before_e(a, b) || rank_before_e(b, a),
{
    if a.count == b.count {
        lemma_lex_connex(a.value@, b.value@);
    }
}

fn entry_ranks_before(a: &HistogramEntry, b: &HistogramEntry) -> (r: bool)
    ensures
        r == rank_before_e(*a, *b),
{
    if a.count > b.count {
        true
    } else if a.count == b.count {
        str_lt(a.value.as_str(), b.value.as_str())
    } else {
        false
    }
}

/// Sorts histogram entries into the strictly descending top-k rank order;
/// the result holds exactly the input entries.
#[verifier::rlimit(100)]
fn sorted_by_rank(es: &Vec<HistogramEntry>) -> (out: Vec<HistogramEntry>)
    requires
        distinct_values(es@),
    ensures
        out@.len() == es@.len(),
        strictly_ranked(out@),
        distinct_values(out@),
        forall|j: int| 0 <= j < out@.len() ==> appears_in(#[trigger] out@[j], es@),
        forall|t: int| 0 <= t < es@.len() ==> appears_in(#[trigger] es@[t], out@),
{
    let mut out: Vec<HistogramEntry> = Vec::new();
    let mut i: usize = 0;
    while i < es.len()
        invariant
            0 <= i <= es@.len(),
            out@.len() == i,
            distinct_values(es@),
            strictly_ranked(out@),
            distinct_values(out@),
            forall|j: int|
                0 <= j < out@.len() ==> appears_in(#[trigger] out@[j], es@.take(i as int)),
            forall|t: int| 0 <= t < i ==> appears_in(#[trigger] es@[t], out@),
        decreases es@.len() - i,
    {
        let e = HistogramEntry { value: es[i].value.clone(), count: es[i].count };
        let ghost e_spec = e;
        proof {
            assert(entry_eq(e_spec, es@[i as int]));
            assert forall|j: int| 0 <= j < out@.len() implies out@[j].value@ != e_spec.value@ by {
                let t = choose|t: int|
                    0 <= t < es@.take(i as int).len() && entry_eq(out@[j], es@.take(i as int)[t]);
                assert(es@[t].value@ != es@[i as int].value@);
            }
        }
        let mut pos: usize = 0;
        while pos < out.len() && !entry_ranks_before(&e, &out[pos])
            invariant
                0 <= pos <= out@.len(),
                e == e_spec,
                strictly_ranked(out@),
                forall|q: int| 0 <= q < out@.len() ==> out@[q].value@ != e_spec.value@,
                forall|q: int| 0 <= q < pos ==> !rank_before_e(e_spec, #[trigger] out@[q]),
            decreases out@.len() - pos,
        {
            pos = pos + 1;
        }
        proof {
            assert forall|q: int| 0 <= q < pos implies rank_before_e(#[trigger] out@[q], e_spec) by {
                lemma_rank_connex(out@[q], e_spec);
            }
        }
        let ghost out_pre = out@;
        out.insert(pos, e);
        proof {
            assert(out@ =~= out_pre.insert(pos as int, e_spec));
            assert forall|a: int, b: int|
                0 <= a < b < out@.len() implies rank_before_e(
                #[trigger] out@[a],
                #[trigger] out@[b],
            ) by {
                if a < pos && b < pos {
                    assert(out@[a] == out_pre[a] && out@[b] == out_pre[b]);
                } else if a < pos && b == pos {
                    assert(out@[a] == out_pre[a]);
                } else if a < pos && b > pos {
                    assert(out@[a] == out_pre[a] && out@[b] == out_pre[b - 1]);
                } else if a == pos && b > pos {
                    assert(out@[b] == out_pre[b - 1]);
                    if b - 1 == pos {
                        assert(rank_before_e(e_spec, out_pre[pos as int]));
                    } else {
                        assert(rank_before_e(out_pre[pos as int], out_pre[b - 1]));
                        lemma_rank_trans(e_spec, out_pre[pos as int], out_pre[b - 1]);
                    }
                } else {
                    assert(out@[a] == out_pre[a - 1] && out@[b] == out_pre[b - 1]);
                }
            }
            assert forall|j: int|
                0 <= j < out@.len() implies appears_in(
                #[trigger] out@[j],
                es@.take(i as int + 1),
            ) by {
                if j == pos {
                    assert(entry_eq(out@[j], es@.take(i as int + 1)[i as int]));
                } else {
                    let jp: int = if j < pos {
                        j
                    } else {
                        j - 1
                    };
                    assert(out@[j] == out_pre[jp]);
                    let t = choose|t: int|
                        0 <= t < es@.take(i as int).len() && entry_eq(
                            out_pre[jp],
                            es@.take(i as int)[t],
                        );
                    assert(entry_eq(out@[j], es@.take(i as int + 1)[t]));
                }
            }
            assert forall|t: int| 0 <= t < i + 1 implies appears_in(
                #[trigger] es@[t],
                out@,
            ) by {
                if t < i {
                    let j0 = choose|j0: int| 0 <= j0 < out_pre.len() && entry_eq(es@[t], out_pre[j0]);
                    if j0 < pos {
                        assert(entry_eq(es@[t], out@[j0]));
                    } else {
                        assert(entry_eq(es@[t], out@[j0 + 1]));
                    }
                } else {
                    assert(entry_eq(es@[t], out@[pos as int]));
                }
            }
            assert forall|a: int, b: int|
                0 <= a < b < out@.len() implies out@[a].value@ != out@[b].value@ by {
                assert(rank_before_e(out@[a], out@[b]));
                if out@[a].value@ == out@[b].value@ {
                    lemma_lex_irrefl(out@[a].value@);
                }
            }
        }
        i = i + 1;
    }
    proof {
        assert(es@.take(es@.len() as int) =~= es@);
    }
    out
}

/// Exactly what `histogram_top_k` promises: the entries are at most `k`
/// distinct pooled values with their exact occurrence counts, strictly
/// ordered by descending frequency with lexicographic tie-break, and any
/// pooled value left out loses the ranking against every entry kept (which
/// can only happen when all `k` slots are taken).
pub open spec fn top_k_post(r: Reservoir, k: int, t: Histogram) -> bool {
    let p = r.values();
    &&& t.effective_size == if p.len() <= r.num_seen {
        p.len() as int
    } else {
        r.num_seen as int
    }
    &&& t.entries@.len() <= k
    &&& strictly_ranked(t.entries@)
    &&& distinct_values(t.entries@)
    &&& (r.capacity == 0 ==> t.entries@.len() == 0)
    &&& (r.capacity > 0 ==> {
        &&& forall|j: int|
            0 <= j < t.entries@.len() ==> (#[trigger] t.entries@[j]).count == occ(
                p,
                t.entries@[j].value@,
            ) && t.entries@[j].count > 0
        &&& forall|i: int|
            0 <= i < p.len() && !has_value(t.entries@, #[trigger] p[i]) ==> t.entries@.len() == k
                && (forall|j: int|
                0 <= j < t.entries@.len() ==> rank_before(
                    (#[trigger] t.entries@[j]).count as int,
                    t.entries@[j].value@,
                    occ(p, p[i]) as int,
                    p[i],
                ))
    })
}

/// Crops a reservoir's histogram to its `k` highest-frequency values,
/// ties broken by the value's natural (lexicographic) order.
#[verifier::rlimit(60)]
pub fn histogram_top_k(reservoir: &Reservoir, k: u32) -> (t: Histogram)
    requires
        reservoir.wf(),
    ensures
        top_k_post(*reservoir, k as int, t),
{
    let ghost p = reservoir.values();
    let h = reservoir.to_histogram();
    let sorted = sorted_by_rank(&h.entries);
    let ghost sorted_spec = sorted@;
    let mut entries = sorted;
    let keep: usize = if (k as usize) <= entries.len() {
        k as usize
    } else {
        entries.len()
    };
    entries.truncate(keep);
    proof {
        assert(entries@ =~= sorted_spec.take(keep as int));
        if reservoir.capacity > 0 {
            assert forall|j: int|
                0 <= j < entries@.len() implies (#[trigger] entries@[j]).count == occ(
                p,
                entries@[j].value@,
            ) && entries@[j].count > 0 by {
                assert(entries@[j] == sorted_spec[j]);
                assert(appears_in(sorted_spec[j], h.entries@));
                let t0 = choose|t0: int|
                    0 <= t0 < h.entries@.len() && entry_eq(sorted_spec[j], h.entries@[t0]);
                assert(h.entries@[t0].count == occ(p, h.entries@[t0].value@));
            }
            assert forall|i: int|
                0 <= i < p.len() && !has_value(entries@, #[trigger] p[i]) implies entries@.len()
                == k && (forall|j: int|
                0 <= j < entries@.len() ==> rank_before(
                    (#[trigger] entries@[j]).count as int,
                    entries@[j].value@,
                    occ(p, p[i]) as int,
                    p[i],
                )) by {
                assert(has_value(h.entries@, p[i]));
                let t0 = choose|t0: int|
                    0 <= t0 < h.entries@.len() && h.entries@[t0].value@ == p[i];
                assert(appears_in(h.entries@[t0], sorted_spec));
                let js = choose|js: int|
                    0 <= js < sorted_spec.len() && entry_eq(h.entries@[t0], sorted_spec[js]);
                assert(js >= keep) by {
                    if js < keep {
                        assert(entries@[js].value@ == p[i]);
                    }
                }
                assert(sorted_spec[js].count == occ(p, p[i]));
                assert forall|j: int|
                    0 <= j < entries@.len() implies rank_before(
                    (#[trigger] entries@[j]).count as int,
                    entries@[j].value@,
                    occ(p, p[i]) as int,
                    p[i],
                ) by {
                    assert(entries@[j] == sorted_spec[j]);
                    assert(rank_before_e(sorted_spec[j], sorted_spec[js]));
                }
            }
        }
    }
    Histogram { entries, effective_size: h.effective_size }
}

/// Law: histogram frequencies sum to one. For a reservoir of positive
/// capacity the entry counts sum exactly to the effective size, so the
/// frequencies `count / effective_size` sum exactly to 1 whenever the pool
/// is non-empty (full or under-full alike).
pub proof fn lemma_histogram_frequencies_sum_to_one(r: Reservoir, h: Histogram)
    requires
        r.wf(),
        r.capacity > 0,
        histogram_post(r, h),
    ensures
        counts_sum(h.entries@) == h.effective_size,
{
}

} // verus!
