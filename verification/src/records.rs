use vstd::prelude::*;

use vstd::string::StringSliceAdditionalSpecFns;

use crate::reservoir::{add_step, merge_post, Reservoir};

verus! {

/// Whether a character counts as field-separating whitespace.
pub uninterp spec fn is_space(c: char) -> bool;

/// Relies on char::is_whitespace: whether the character has the Unicode
/// whitespace property, a function of the character alone.
#[verifier::external_body]
fn char_is_space(c: char) -> (r: bool)
    ensures
        r == is_space(c),
{
    c.is_whitespace()
}

/// The first position at or after `i` holding whitespace, or the length of
/// `s` if none remains.
pub open spec fn first_space_from(s: Seq<char>, i: int) -> int
    decreases s.len() - i,
    when 0 <= i <= s.len()
{
    if i >= s.len() {
        i
    } else if is_space(s[i]) {
        i
    } else {
        first_space_from(s, i + 1)
    }
}

proof fn lemma_first_space_bounds(s: Seq<char>, i: int)
    requires
        0 <= i <= s.len(),
    ensures
        i <= first_space_from(s, i) <= s.len(),
        forall|t: int| i <= t < first_space_from(s, i) ==> !is_space(s[t]),
        first_space_from(s, i) < s.len() ==> is_space(s[first_space_from(s, i)]),
    decreases s.len() - i,
{
    if i < s.len() && !is_space(s[i]) {
        lemma_first_space_bounds(s, i + 1);
    }
}

proof fn lemma_first_space_is(s: Seq<char>, i: int, j: int)
    requires
        0 <= i <= j <= s.len(),
        forall|t: int| i <= t < j ==> !is_space(s[t]),
        j < s.len() ==> is_space(s[j]),
    ensures
        first_space_from(s, i) == j,
    decreases j - i,
{
    if i < j {
        lemma_first_space_is(s, i + 1, j);
    }
}

/// The fields of `s` from position `i` on, split at maximal whitespace
/// runs: leading whitespace is skipped and each field is a maximal
/// non-whitespace run. Empty fields never arise.
pub open spec fn ws_split_from(s: Seq<char>, i: int) -> Seq<Seq<char>>
    decreases s.len() - i,
    when 0 <= i <= s.len()
    via ws_split_from_dec
{
    if i >= s.len() {
        Seq::empty()
    } else if is_space(s[i]) {
        ws_split_from(s, i + 1)
    } else {
        seq![s.subrange(i, first_space_from(s, i))] + ws_split_from(s, first_space_from(s, i))
    }
}

#[via_fn]
proof fn ws_split_from_dec(s: Seq<char>, i: int) {
    if 0 <= i < s.len() && !is_space(s[i]) {
        lemma_first_space_bounds(s, i);
    }
}

/// The whitespace-split fields of a whole record.
pub open spec fn ws_split(s: Seq<char>) -> Seq<Seq<char>> {
    ws_split_from(s, 0)
}

/// The literal separator occurs in `s` starting at position `i`.
pub open spec fn is_sep_at(s: Seq<char>, sep: Seq<char>, i: int) -> bool {
    0 <= i && i + sep.len() <= s.len() && s.subrange(i, i + sep.len()) == sep
}

/// The first position at or after `i` where the separator occurs, or -1.
pub open spec fn first_sep_from(s: Seq<char>, sep: Seq<char>, i: int) -> int
    decreases s.len() - i,
    when 0 <= i && sep.len() >= 1
{
    if i + sep.len() > s.len() {
        -1
    } else if is_sep_at(s, sep, i) {
        i
    } else {
        first_sep_from(s, sep, i + 1)
    }
}

proof fn lemma_first_sep_bounds(s: Seq<char>, sep: Seq<char>, i: int)
    requires
        0 <= i,
        sep.len() >= 1,
    ensures
        first_sep_from(s, sep, i) == -1 || (i <= first_sep_from(s, sep, i) && first_sep_from(
            s,
            sep,
            i,
        ) + sep.len() <= s.len() && is_sep_at(s, sep, first_sep_from(s, sep, i))),
    decreases s.len() - i,
{
    if i + sep.len() <= s.len() && !is_sep_at(s, sep, i) {
        lemma_first_sep_bounds(s, sep, i + 1);
    }
}

proof fn lemma_first_sep_is(s: Seq<char>, sep: Seq<char>, i: int, j: int)
    requires
        0 <= i <= j,
        sep.len() >= 1,
        forall|t: int| i <= t < j ==> !is_sep_at(s, sep, t),
    ensures
        j + sep.len() > s.len() ==> first_sep_from(s, sep, i) == -1,
        j + sep.len() <= s.len() && is_sep_at(s, sep, j) ==> first_sep_from(s, sep, i) == j,
    decreases j - i,
{
    if i < j {
        lemma_first_sep_is(s, sep, i + 1, j);
    }
}

/// The fields of `s` from position `i` on, split at each occurrence of the
/// literal separator, leftmost occurrence first; empty fields are kept.
pub open spec fn sep_split_from(s: Seq<char>, sep: Seq<char>, i: int) -> Seq<Seq<char>>
    decreases s.len() - i,
    when 0 <= i <= s.len() && sep.len() >= 1
    via sep_split_from_dec
{
    let m = first_sep_from(s, sep, i);
    if m == -1 {
        seq![s.subrange(i, s.len() as int)]
    } else {
        seq![s.subrange(i, m)] + sep_split_from(s, sep, m + sep.len())
    }
}

#[via_fn]
proof fn sep_split_from_dec(s: Seq<char>, sep: Seq<char>, i: int) {
    if 0 <= i <= s.len() && sep.len() >= 1 {
        lemma_first_sep_bounds(s, sep, i);
    }
}

/// The separator-split fields of a whole record.
pub open spec fn sep_split(s: Seq<char>, sep: Seq<char>) -> Seq<Seq<char>> {
    sep_split_from(s, sep, 0)
}

/// The field list a record yields under the run's delimiter policy.
pub open spec fn split_fields(rec: Seq<char>, sep: Option<Seq<char>>) -> Seq<Seq<char>> {
    match sep {
        Option::Some(sv) => sep_split(rec, sv),
        Option::None => ws_split(rec),
    }
}

/// Splits a record at maximal whitespace runs.
pub fn split_whitespace(s: &str) -> (fields: Vec<String>)
    ensures
        fields.deep_view() == ws_split(s@),
{
    let n = s.unicode_len();
    let mut fields: Vec<String> = Vec::new();
    proof {
        assert(fields.deep_view() + ws_split(s@) =~= ws_split(s@));
    }
    let mut i: usize = 0;
    while i < n
        invariant
            0 <= i <= n,
            n == s@.len(),
            fields.deep_view() + ws_split_from(s@, i as int) == ws_split(s@),
        decreases n - i,
    {
        let c = s.get_char(i);
        if char_is_space(c) {
            i = i + 1;
        } else {
            let mut j: usize = i + 1;
            let mut stop: bool = false;
            while !stop
                invariant
                    n == s@.len(),
                    0 <= i < j <= n,
                    forall|t: int| i <= t < j ==> !is_space(s@[t]),
                    stop ==> j == n || is_space(s@[j as int]),
                decreases (n - j) + if stop {
                    0int
                } else {
                    1int
                },
            {
                if j < n {
                    let cj = s.get_char(j);
                    if char_is_space(cj) {
                        stop = true;
                    } else {
                        j = j + 1;
                    }
                } else {
                    stop = true;
                }
            }
            let ghost fields_pre = fields.deep_view();
            let piece = s.substring_char(i, j).to_owned();
            fields.push(piece);
            proof {
                lemma_first_space_is(s@, i as int, j as int);
                assert(ws_split_from(s@, i as int) == seq![s@.subrange(i as int, j as int)]
                    + ws_split_from(s@, j as int));
                assert(fields.deep_view() =~= fields_pre.push(s@.subrange(i as int, j as int)));
                assert(fields.deep_view() + ws_split_from(s@, j as int) =~= fields_pre
                    + ws_split_from(s@, i as int));
            }
            i = j;
        }
    }
    proof {
        assert(fields.deep_view() + ws_split_from(s@, n as int) =~= fields.deep_view());
    }
    fields
}

/// The separator occurs in `s` at character position `i`.
fn is_match(s: &str, sep: &str, i: usize) -> (r: bool)
    requires
        s@.len() <= usize::MAX,
        i + sep@.len() <= s@.len(),
    ensures
        r == is_sep_at(s@, sep@, i as int),
{
    let m = sep.unicode_len();
    let mut t: usize = 0;
    let mut ok: bool = true;
    while t < m
        invariant
            0 <= t <= m,
            m == sep@.len(),
            s@.len() <= usize::MAX,
            i + m <= s@.len(),
            ok ==> forall|q: int| 0 <= q < t ==> s@[i + q] == sep@[q],
            !ok ==> !is_sep_at(s@, sep@, i as int),
        decreases m - t,
    {
        if ok {
            let cs = s.get_char(i + t);
            let cp = sep.get_char(t);
            if cs != cp {
                ok = false;
                proof {
                    if is_sep_at(s@, sep@, i as int) {
                        assert(s@.subrange(i as int, i + sep@.len())[t as int] == sep@[t as int]);
                        assert(false);
                    }
                }
            }
        }
        t = t + 1;
    }
    if ok {
        proof {
            assert(s@.subrange(i as int, i + sep@.len()) =~= sep@);
        }
    }
    ok
}

/// Splits a record at each occurrence of a literal separator.
pub fn split_by_sep(s: &str, sep: &str) -> (fields: Vec<String>)
    requires
        sep@.len() >= 1,
    ensures
        fields.deep_view() == sep_split(s@, sep@),
{
    let n = s.unicode_len();
    let m = sep.unicode_len();
    let mut fields: Vec<String> = Vec::new();
    proof {
        assert(fields.deep_view() + sep_split(s@, sep@) =~= sep_split(s@, sep@));
    }
    let mut start: usize = 0;
    let mut i: usize = 0;
    let mut finished: bool = false;
    while !finished
        invariant
            n == s@.len(),
            m == sep@.len() >= 1,
            n <= usize::MAX,
            0 <= start <= i <= n,
            forall|t: int| start <= t < i ==> !is_sep_at(s@, sep@, t),
            !finished ==> fields.deep_view() + sep_split_from(s@, sep@, start as int) == sep_split(
                s@,
                sep@,
            ),
            finished ==> fields.deep_view() == sep_split(s@, sep@),
        decreases (n - i) + if finished {
            0int
        } else {
            1int
        },
    {
        if m > n - i {
            let ghost fields_pre = fields.deep_view();
            let piece = s.substring_char(start, n).to_owned();
            fields.push(piece);
            finished = true;
            proof {
                lemma_first_sep_is(s@, sep@, start as int, i as int);
                assert(sep_split_from(s@, sep@, start as int) == seq![
                    s@.subrange(start as int, n as int),
                ]);
                assert(fields.deep_view() =~= fields_pre + sep_split_from(
                    s@,
                    sep@,
                    start as int,
                ));
            }
        } else if is_match(s, sep, i) {
            let ghost fields_pre = fields.deep_view();
            let piece = s.substring_char(start, i).to_owned();
            fields.push(piece);
            proof {
                lemma_first_sep_is(s@, sep@, start as int, i as int);
                assert(sep_split_from(s@, sep@, start as int) == seq![
                    s@.subrange(start as int, i as int),
                ] + sep_split_from(s@, sep@, i + m));
                assert(fields.deep_view() =~= fields_pre.push(
                    s@.subrange(start as int, i as int),
                ));
                assert(fields.deep_view() + sep_split_from(s@, sep@, i + m) =~= fields_pre
                    + sep_split_from(s@, sep@, start as int));
            }
            start = i + m;
            i = i + m;
        } else {
            i = i + 1;
        }
    }
    fields
}

/// The per-field results of one processing unit: one reservoir and one
/// missing-record counter per tracked field (a single pair when whole
/// records are sampled).
pub struct SampledFields {
    pub reservoirs: Vec<Reservoir>,
    pub missing_field_counts: Vec<u64>,
}

/// The pairwise sums a merge of the two would need all fit in their
/// counters, and the shapes match.
pub open spec fn can_merge(a: SampledFields, b: SampledFields) -> bool {
    &&& a.reservoirs@.len() == b.reservoirs@.len()
    &&& forall|i: int|
        0 <= i < a.reservoirs@.len() ==> (#[trigger] a.reservoirs@[i]).num_seen
            + b.reservoirs@[i].num_seen <= u64::MAX
    &&& forall|i: int|
        0 <= i < a.missing_field_counts@.len() ==> (#[trigger] a.missing_field_counts@[i])
            + b.missing_field_counts@[i] <= u64::MAX
}

impl SampledFields {
    pub open spec fn wf(self) -> bool {
        &&& self.reservoirs@.len() == self.missing_field_counts@.len()
        &&& forall|i: int| 0 <= i < self.reservoirs@.len() ==> (#[trigger] self.reservoirs@[i]).wf()
    }

    /// Whether `merge` may combine the two.
    pub fn mergeable(&self, other: &SampledFields) -> (r: bool)
        requires
            self.wf(),
            other.wf(),
        ensures
            r == can_merge(*self, *other),
    {
        if self.reservoirs.len() != other.reservoirs.len() {
            return false;
        }
        let mut i: usize = 0;
        while i < self.reservoirs.len()
            invariant
                self.wf(),
                other.wf(),
                self.reservoirs@.len() == other.reservoirs@.len(),
                0 <= i <= self.reservoirs@.len(),
                forall|t: int|
                    0 <= t < i ==> (#[trigger] self.reservoirs@[t]).num_seen
                        + other.reservoirs@[t].num_seen <= u64::MAX,
                forall|t: int|
                    0 <= t < i && t < self.missing_field_counts@.len() ==> (
                    #[trigger] self.missing_field_counts@[t]) + other.missing_field_counts@[t]
                        <= u64::MAX,
            decreases self.reservoirs@.len() - i,
        {
            if other.reservoirs[i].num_seen > u64::MAX - self.reservoirs[i].num_seen {
                return false;
            }
            if other.missing_field_counts[i] > u64::MAX - self.missing_field_counts[i] {
                return false;
            }
            i = i + 1;
        }
        true
    }

    /// Combines two units' results pairwise: matching reservoirs by
    /// weighted merge, matching missing counters by sum. Neither input is
    /// mutated.
    pub fn merge(pr1: &SampledFields, pr2: &SampledFields) -> (r: SampledFields)
        requires
            pr1.wf(),
            pr2.wf(),
            can_merge(*pr1, *pr2),
        ensures
            r.wf(),
            r.reservoirs@.len() == pr1.reservoirs@.len(),
            forall|i: int|
                0 <= i < r.reservoirs@.len() ==> merge_post(
                    pr1.reservoirs@[i],
                    pr2.reservoirs@[i],
                    #[trigger] r.reservoirs@[i],
                ),
            forall|i: int|
                0 <= i < r.missing_field_counts@.len() ==> (#[trigger] r.missing_field_counts@[i])
                    == pr1.missing_field_counts@[i] + pr2.missing_field_counts@[i],
    {
        let mut reservoirs: Vec<Reservoir> = Vec::new();
        let mut missing_field_counts: Vec<u64> = Vec::new();
        let mut i: usize = 0;
        while i < pr1.reservoirs.len()
            invariant
                pr1.wf(),
                pr2.wf(),
                can_merge(*pr1, *pr2),
                0 <= i <= pr1.reservoirs@.len(),
                reservoirs@.len() == i,
                missing_field_counts@.len() == i,
                forall|t: int|
                    0 <= t < i ==> merge_post(
                        pr1.reservoirs@[t],
                        pr2.reservoirs@[t],
                        #[trigger] reservoirs@[t],
                    ) && reservoirs@[t].wf(),
                forall|t: int|
                    0 <= t < i ==> (#[trigger] missing_field_counts@[t])
                        == pr1.missing_field_counts@[t] + pr2.missing_field_counts@[t],
            decreases pr1.reservoirs@.len() - i,
        {
            let merged = Reservoir::merge(&pr1.reservoirs[i], &pr2.reservoirs[i]);
            reservoirs.push(merged);
            missing_field_counts.push(pr1.missing_field_counts[i] + pr2.missing_field_counts[i]);
            i = i + 1;
        }
        SampledFields { reservoirs, missing_field_counts }
    }
}

/// The delimiter policy as a mathematical value.
pub open spec fn sep_view(o: Option<String>) -> Option<Seq<char>> {
    match o {
        Option::Some(s) => Option::Some(s@),
        Option::None => Option::None,
    }
}

/// Reads newline-delimited records one at a time, optionally bounded by a
/// byte budget, and feeds each whole record — or each requested field of it
/// — into the matching reservoir, counting records too short for a field.
pub struct RecordProcessor {
    pub fields: Vec<usize>,
    pub separator: Option<String>,
    pub read_limit: Option<u64>,
    pub read_count: u64,
    pub records: u64,
    pub out: SampledFields,
}

/// What one consumed record does to the tracked field at index `j`: too
/// short a record bumps that field's missing counter, otherwise the field's
/// text is offered to that field's reservoir.
pub open spec fn field_step(
    pre: RecordProcessor,
    post: RecordProcessor,
    fs: Seq<Seq<char>>,
    j: int,
) -> bool {
    if pre.fields@[j] >= fs.len() {
        &&& post.out.reservoirs@[j] == pre.out.reservoirs@[j]
        &&& post.out.missing_field_counts@[j] == pre.out.missing_field_counts@[j] + 1
    } else {
        &&& add_step(pre.out.reservoirs@[j], post.out.reservoirs@[j], fs[pre.fields@[j] as int])
        &&& post.out.missing_field_counts@[j] == pre.out.missing_field_counts@[j]
    }
}

/// What one consumed record does to the whole unit.
pub open spec fn record_step(pre: RecordProcessor, post: RecordProcessor, rec: Seq<char>) -> bool {
    let fs = split_fields(rec, sep_view(pre.separator));
    &&& post.out.reservoirs@.len() == pre.out.reservoirs@.len()
    &&& post.out.missing_field_counts@.len() == pre.out.missing_field_counts@.len()
    &&& if pre.fields@.len() == 0 {
        &&& add_step(pre.out.reservoirs@[0], post.out.reservoirs@[0], rec)
        &&& post.out.missing_field_counts@ == pre.out.missing_field_counts@
    } else {
        forall|j: int| 0 <= j < pre.fields@.len() ==> #[trigger] field_step(pre, post, fs, j)
    }
}

impl RecordProcessor {
    pub open spec fn wf(self) -> bool {
        &&& self.out.wf()
        &&& self.out.reservoirs@.len() == if self.fields@.len() == 0 {
            1int
        } else {
            self.fields@.len() as int
        }
        &&& (self.separator matches Option::Some(s) ==> s@.len() >= 1)
        &&& forall|i: int|
            0 <= i < self.out.reservoirs@.len() ==> (#[trigger] self.out.reservoirs@[i]).num_seen
                <= self.records
        &&& forall|i: int|
            0 <= i < self.out.missing_field_counts@.len() ==> (
            #[trigger] self.out.missing_field_counts@[i]) <= self.records
    }

    /// A record is refused (and processing stops) when a byte budget is set
    /// and this record's bytes would take the cumulative count past it.
    pub open spec fn stops(self, rec_bytes: int) -> bool {
        match self.read_limit {
            Option::Some(l) => self.read_count + rec_bytes > l,
            Option::None => false,
        }
    }

    /// A fresh unit: one empty reservoir of the given capacity per tracked
    /// field (a single one when `fields` is empty), all counters zero.
    pub fn new(
        sample_size: usize,
        fields: Vec<usize>,
        separator: Option<String>,
        read_limit: Option<u64>,
    ) -> (p: RecordProcessor)
        requires
            (separator matches Option::Some(s) ==> s@.len() >= 1),
        ensures
            p.wf(),
            p.fields == fields,
            p.separator == separator,
            p.read_limit == read_limit,
            p.read_count == 0,
            p.records == 0,
            forall|i: int|
                0 <= i < p.out.reservoirs@.len() ==> (#[trigger] p.out.reservoirs@[i]).capacity
                    == sample_size && p.out.reservoirs@[i].num_seen == 0
                    && p.out.reservoirs@[i].values().len() == 0,
            forall|i: int|
                0 <= i < p.out.missing_field_counts@.len() ==> (
                #[trigger] p.out.missing_field_counts@[i]) == 0,
    {
        let want: usize = if fields.len() == 0 {
            1
        } else {
            fields.len()
        };
        let mut reservoirs: Vec<Reservoir> = Vec::new();
        let mut missing_field_counts: Vec<u64> = Vec::new();
        let mut i: usize = 0;
        while i < want
            invariant
                0 <= i <= want,
                reservoirs@.len() == i,
                missing_field_counts@.len() == i,
                forall|t: int|
                    0 <= t < i ==> (#[trigger] reservoirs@[t]).capacity == sample_size
                        && reservoirs@[t].num_seen == 0 && reservoirs@[t].values().len() == 0
                        && reservoirs@[t].wf(),
                forall|t: int| 0 <= t < i ==> (#[trigger] missing_field_counts@[t]) == 0,
            decreases want - i,
        {
            reservoirs.push(Reservoir::new(sample_size));
            missing_field_counts.push(0);
            i = i + 1;
        }
        RecordProcessor {
            fields,
            separator,
            read_limit,
            read_count: 0,
            records: 0,
            out: SampledFields { reservoirs, missing_field_counts },
        }
    }

    /// Offers one record. Returns false — and leaves the unit's results
    /// untouched — exactly when the byte budget is exhausted; otherwise the
    /// record (or its requested fields) is processed.
    pub fn offer_record(&mut self, record: &str) -> (consumed: bool)
        requires
            old(self).wf(),
            old(self).records < u64::MAX,
            record.spec_bytes().len() <= usize::MAX,
        ensures
            final(self).wf(),
            final(self).fields == old(self).fields,
            final(self).separator == old(self).separator,
            final(self).read_limit == old(self).read_limit,
            final(self).read_count as int == if old(self).read_count + record.spec_bytes().len()
                <= u64::MAX {
                old(self).read_count + record.spec_bytes().len()
            } else {
                u64::MAX as int
            },
            consumed == !old(self).stops(record.spec_bytes().len() as int),
            !consumed ==> final(self).out == old(self).out && final(self).records == old(
                self,
            ).records,
            consumed ==> final(self).records == old(self).records + 1 && record_step(
                *old(self),
                *final(self),
                record@,
            ),
    {
        let len_bytes: u64 = record.len() as u64;
        let mut stop: bool = false;
        if len_bytes > u64::MAX - self.read_count {
            self.read_count = u64::MAX;
            stop = self.read_limit.is_some();
        } else {
            let s2 = self.read_count + len_bytes;
            self.read_count = s2;
            match self.read_limit {
                Option::Some(l) => {
                    if s2 > l {
                        stop = true;
                    }
                },
                Option::None => {},
            }
        }
        if stop {
            return false;
        }
        self.records = self.records + 1;
        if self.fields.len() == 0 {
            let item = record.to_owned();
            let res = &mut self.out.reservoirs[0];
            res.add(item);
            return true;
        }
        let fs: Vec<String> = match &self.separator {
            Option::Some(sep) => split_by_sep(record, sep.as_str()),
            Option::None => split_whitespace(record),
        };
        let ghost fs_spec = split_fields(record@, sep_view(self.separator));
        let ghost pre = *old(self);
        let ghost rc_after = self.read_count;
        let mut j: usize = 0;
        while j < self.fields.len()
            invariant
                pre == *old(self),
                pre.wf(),
                pre.records < u64::MAX,
                !pre.stops(record.spec_bytes().len() as int),
                rc_after as int == if pre.read_count + record.spec_bytes().len() <= u64::MAX {
                    pre.read_count + record.spec_bytes().len()
                } else {
                    u64::MAX as int
                },
                self.fields == pre.fields,
                self.separator == pre.separator,
                self.read_limit == pre.read_limit,
                self.read_count == rc_after,
                self.records == pre.records + 1,
                self.fields@.len() >= 1,
                0 <= j <= self.fields@.len(),
                self.out.reservoirs@.len() == pre.out.reservoirs@.len(),
                self.out.missing_field_counts@.len() == pre.out.missing_field_counts@.len(),
                fs.deep_view() == fs_spec,
                forall|t: int| 0 <= t < j ==> #[trigger] field_step(pre, *self, fs_spec, t),
                forall|t: int|
                    j <= t < self.out.reservoirs@.len() ==> (#[trigger] self.out.reservoirs@[t])
                        == pre.out.reservoirs@[t],
                forall|t: int|
                    j <= t < self.out.missing_field_counts@.len() ==> (
                    #[trigger] self.out.missing_field_counts@[t])
                        == pre.out.missing_field_counts@[t],
                forall|t: int|
                    0 <= t < self.out.reservoirs@.len() ==> (#[trigger] self.out.reservoirs@[t]).wf()
                        && self.out.reservoirs@[t].num_seen <= self.records,
                forall|t: int|
                    0 <= t < self.out.missing_field_counts@.len() ==> (
                    #[trigger] self.out.missing_field_counts@[t]) <= self.records,
            decreases self.fields@.len() - j,
        {
            let ghost self_at_entry = *self;
            let fidx = self.fields[j];
            if fidx >= fs.len() {
                let cur = self.out.missing_field_counts[j];
                self.out.missing_field_counts[j] = cur + 1;
            } else {
                let val = fs[fidx].clone();
                let res = &mut self.out.reservoirs[j];
                res.add(val);
                proof {
                    assert(fs.deep_view()[fidx as int] == fs_spec[fidx as int]);
                }
            }
            proof {
                assert(field_step(pre, *self, fs_spec, j as int));
                assert forall|t: int| 0 <= t < j implies #[trigger] field_step(
                    pre,
                    *self,
                    fs_spec,
                    t,
                ) by {
                    assert(field_step(pre, self_at_entry, fs_spec, t));
                    assert(self.out.reservoirs@[t] == self_at_entry.out.reservoirs@[t]);
                    assert(self.out.missing_field_counts@[t]
                        == self_at_entry.out.missing_field_counts@[t]);
                }
            }
            j = j + 1;
        }
        true
    }

    /// The finished unit's results.
    pub fn into_fields(self) -> (r: SampledFields)
        requires
            self.wf(),
        ensures
            r == self.out,
            r.wf(),
    {
        self.out
    }
}

} // verus!
