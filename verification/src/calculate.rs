//! The regression engine: pairing measurements by run, and deciding for
//! each metric whether the dev run regressed against the baseline run.

use vstd::multiset::Multiset;
use vstd::prelude::*;

use crate::records::CalcV;
use crate::records::Calculation;
use crate::records::Data;
use crate::records::GroupV;
use crate::records::Measurement;
use crate::records::MeasurementGroup;
use crate::records::MeasurementV;
use crate::records::lemma_vec_deep_view_index;
use crate::records::lemma_vec_deep_view_len;
use crate::records::Ratio;
use crate::errors::CalculateError;
use crate::errors::CalculateErrorV;
use crate::errors::IOError;
use crate::errors::IOErrorV;
use crate::records::Measurements;
use crate::strutil::file_name_of;
use crate::strutil::lemma_lex_le_antisym;
use crate::strutil::lemma_lex_le_connected;
use crate::strutil::lemma_lex_le_trans;
use crate::strutil::lex_le;
use crate::strutil::lex_le_str;
use crate::strutil::spec_file_name;
use crate::strutil::spec_run_of;
use crate::strutil::spec_stem;
use crate::strutil::spec_version_of;
use crate::strutil::split_version_run;
use crate::strutil::stem_of;
use crate::strutil::str_eq;

verus! {

/// Numerator of the median regression threshold (a 5% allowance).
pub const MEDIAN_THRESHOLD_NUM: u64 = 21;

/// Denominator of the median regression threshold.
pub const MEDIAN_THRESHOLD_DEN: u64 = 20;

/// Numerator of the standard-deviation regression threshold (a 5%
/// allowance; this is the single most likely tuning knob of the tool).
pub const STDDEV_THRESHOLD_NUM: u64 = 21;

/// Denominator of the standard-deviation regression threshold.
pub const STDDEV_THRESHOLD_DEN: u64 = 20;

/// The median regression threshold as a ratio.
pub open spec fn spec_median_threshold() -> Ratio {
    Ratio { num: MEDIAN_THRESHOLD_NUM, den: MEDIAN_THRESHOLD_DEN }
}

/// The standard-deviation regression threshold as a ratio.
pub open spec fn spec_stddev_threshold() -> Ratio {
    Ratio { num: STDDEV_THRESHOLD_NUM, den: STDDEV_THRESHOLD_DEN }
}

/// The median regression threshold.
pub fn median_threshold() -> (r: Ratio)
    ensures
        r == spec_median_threshold(),
{
    Ratio { num: MEDIAN_THRESHOLD_NUM, den: MEDIAN_THRESHOLD_DEN }
}

/// The standard-deviation regression threshold.
pub fn stddev_threshold() -> (r: Ratio)
    ensures
        r == spec_stddev_threshold(),
{
    Ratio { num: STDDEV_THRESHOLD_NUM, den: STDDEV_THRESHOLD_DEN }
}

/// The product of two 64-bit values always fits in 128 bits.
proof fn lemma_u64_mul_fits_u128(a: u64, b: u64)
    ensures
        0 <= (a as int) * (b as int) <= u128::MAX,
{
    assert((a as int) * (b as int) <= (u64::MAX as int) * (u64::MAX as int) && (a as int) * (
    b as int) >= 0) by (nonlinear_arith)
        requires
            0 <= a <= u64::MAX,
            0 <= b <= u64::MAX,
    ;
}

/// True when `dev / baseline` exceeds `threshold`, compared exactly by
/// cross-multiplication. A zero baseline behaves like the infinite
/// quotient (any positive dev value exceeds the threshold), and a zero
/// baseline with a zero dev value behaves like the undefined quotient
/// (which exceeds nothing).
pub open spec fn spec_exceeds(dev: u64, baseline: u64, threshold: Ratio) -> bool {
    (dev as int) * (threshold.den as int) > (baseline as int) * (threshold.num as int)
}

/// Decides whether `dev / baseline` exceeds `threshold`.
pub fn exceeds(dev: u64, baseline: u64, threshold: Ratio) -> (r: bool)
    ensures
        r == spec_exceeds(dev, baseline, threshold),
{
    proof {
        lemma_u64_mul_fits_u128(dev, threshold.den);
        lemma_u64_mul_fits_u128(baseline, threshold.num);
    }
    let lhs: u128 = (dev as u128) * (threshold.den as u128);
    let rhs: u128 = (baseline as u128) * (threshold.num as u128);
    lhs > rhs
}

/// Reads the clock. Relies on std's `SystemTime::now` and
/// `duration_since`: the current time, as whole seconds since the Unix
/// epoch, or zero on a clock set before the epoch (where chrono's
/// `Utc::now` would panic, and a verified caller must not). Nothing can
/// be promised of a clock reading.
#[verifier::external_body]
fn now_timestamp() -> i64 {
    match std::time::SystemTime::now().duration_since(std::time::UNIX_EPOCH) {
        Ok(d) => d.as_secs() as i64,
        Err(_) => 0,
    }
}

/// The sort order of measurement groups: by run identifier first, then
/// by version label, comparing strings lexicographically. This clusters
/// the two entries of each run next to each other, with `baseline`
/// before `dev`.
pub open spec fn group_le(a: GroupV, b: GroupV) -> bool {
    if a.run == b.run {
        lex_le(a.version, b.version)
    } else {
        lex_le(a.run, b.run)
    }
}

/// A group sequence sorted by [`group_le`].
pub open spec fn groups_sorted(s: Seq<GroupV>) -> bool {
    forall|i: int, j: int| 0 <= i < j < s.len() ==> #[trigger] group_le(s[i], s[j])
}

/// Any two groups are comparable.
pub proof fn lemma_group_le_connected(a: GroupV, b: GroupV)
    ensures
        group_le(a, b) || group_le(b, a),
{
    if a.run == b.run {
        lemma_lex_le_connected(a.version, b.version, 0);
    } else {
        lemma_lex_le_connected(a.run, b.run, 0);
    }
}

/// Groups that compare "less or equal" both ways have the same run and
/// version.
pub proof fn lemma_group_le_antisym_keys(a: GroupV, b: GroupV)
    requires
        group_le(a, b),
        group_le(b, a),
    ensures
        a.run == b.run,
        a.version == b.version,
{
    if a.run != b.run {
        lemma_lex_le_antisym(a.run, b.run, 0);
        assert(a.run =~= b.run);
    } else {
        lemma_lex_le_antisym(a.version, b.version, 0);
        assert(a.version =~= b.version);
    }
}

/// The group order is transitive.
pub proof fn lemma_group_le_trans(a: GroupV, b: GroupV, c: GroupV)
    requires
        group_le(a, b),
        group_le(b, c),
    ensures
        group_le(a, c),
{
    if a.run == b.run && b.run == c.run {
        lemma_lex_le_trans(a.version, b.version, c.version, 0);
    } else if a.run != b.run && b.run != c.run {
        lemma_lex_le_trans(a.run, b.run, c.run, 0);
        if a.run == c.run {
            lemma_lex_le_antisym(a.run, b.run, 0);
            assert(a.run =~= b.run);
        }
    }
}

/// Inserts a group into a sequence, in front of the first entry that is
/// not "less or equal" to it.
pub open spec fn insert_sorted(g: GroupV, s: Seq<GroupV>) -> Seq<GroupV>
    decreases s.len(),
{
    if s.len() == 0 {
        seq![g]
    } else if group_le(s[0], g) {
        seq![s[0]] + insert_sorted(g, s.drop_first())
    } else {
        seq![g] + s
    }
}

/// Insertion sort of a group sequence, inserting entries left to right:
/// the canonical arrangement of the groups under [`group_le`].
pub open spec fn sort_spec(s: Seq<GroupV>) -> Seq<GroupV>
    decreases s.len(),
{
    if s.len() == 0 {
        Seq::empty()
    } else {
        insert_sorted(s.last(), sort_spec(s.drop_last()))
    }
}

/// Every entry of an insertion result is the inserted group or one of
/// the original entries.
proof fn lemma_insert_sorted_elems(g: GroupV, s: Seq<GroupV>)
    ensures
        insert_sorted(g, s).len() == s.len() + 1,
        forall|k: int|
            0 <= k < s.len() + 1 ==> (#[trigger] insert_sorted(g, s)[k] == g || s.contains(
                insert_sorted(g, s)[k],
            )),
    decreases s.len(),
{
    if s.len() > 0 && group_le(s[0], g) {
        lemma_insert_sorted_elems(g, s.drop_first());
        let r = insert_sorted(g, s);
        let inner = insert_sorted(g, s.drop_first());
        assert forall|k: int| 0 <= k < s.len() + 1 implies (#[trigger] r[k] == g || s.contains(
            r[k],
        )) by {
            if k == 0 {
                assert(s.contains(s[0])) by {
                    assert(s[0] == s[0]);
                }
            } else {
                assert(r[k] == inner[k - 1]);
                if inner[k - 1] != g {
                    let m = choose|m: int| 0 <= m < s.drop_first().len() && s.drop_first()[m]
                        == inner[k - 1];
                    assert(s[m + 1] == inner[k - 1]);
                }
            }
        }
    }
}

/// Insertion into a sorted sequence yields a sorted sequence.
proof fn lemma_insert_sorted_sorted(g: GroupV, s: Seq<GroupV>)
    requires
        groups_sorted(s),
    ensures
        groups_sorted(insert_sorted(g, s)),
    decreases s.len(),
{
    let r = insert_sorted(g, s);
    if s.len() == 0 {
    } else if group_le(s[0], g) {
        assert(groups_sorted(s.drop_first())) by {
            assert forall|i: int, j: int|
                0 <= i < j < s.drop_first().len() implies #[trigger] group_le(
                s.drop_first()[i],
                s.drop_first()[j],
            ) by {
                assert(group_le(s[i + 1], s[j + 1]));
            }
        }
        lemma_insert_sorted_sorted(g, s.drop_first());
        lemma_insert_sorted_elems(g, s.drop_first());
        let inner = insert_sorted(g, s.drop_first());
        assert forall|i: int, j: int| 0 <= i < j < r.len() implies #[trigger] group_le(
            r[i],
            r[j],
        ) by {
            if i == 0 {
                assert(r[j] == inner[j - 1]);
                if inner[j - 1] == g {
                } else {
                    let m = choose|m: int|
                        0 <= m < s.drop_first().len() && s.drop_first()[m] == inner[j - 1];
                    assert(group_le(s[0], s[m + 1]));
                }
            } else {
                assert(r[i] == inner[i - 1] && r[j] == inner[j - 1]);
                assert(group_le(inner[i - 1], inner[j - 1]));
            }
        }
    } else {
        lemma_group_le_connected(g, s[0]);
        assert forall|i: int, j: int| 0 <= i < j < r.len() implies #[trigger] group_le(
            r[i],
            r[j],
        ) by {
            if i == 0 {
                if j > 0 {
                    assert(r[j] == s[j - 1]);
                    if j - 1 == 0 {
                    } else {
                        assert(group_le(s[0], s[j - 1]));
                        lemma_group_le_trans(g, s[0], s[j - 1]);
                    }
                }
            } else {
                assert(r[i] == s[i - 1] && r[j] == s[j - 1]);
            }
        }
    }
}

/// Insertion adds exactly the inserted group to the sequence's multiset.
proof fn lemma_insert_sorted_multiset(g: GroupV, s: Seq<GroupV>)
    ensures
        insert_sorted(g, s).to_multiset() =~= s.to_multiset().insert(g),
    decreases s.len(),
{
    broadcast use vstd::seq_lib::group_to_multiset_ensures;

    if s.len() == 0 {
        assert(seq![g] =~= Seq::<GroupV>::empty().push(g));
    } else if group_le(s[0], g) {
        lemma_insert_sorted_multiset(g, s.drop_first());
        let inner = insert_sorted(g, s.drop_first());
        vstd::seq_lib::lemma_multiset_commutative(seq![s[0]], inner);
        vstd::seq_lib::lemma_multiset_commutative(seq![s[0]], s.drop_first());
        assert(seq![s[0]] + s.drop_first() =~= s);
        assert(seq![s[0]].to_multiset() =~= Multiset::<GroupV>::empty().insert(s[0])) by {
            assert(seq![s[0]] =~= Seq::<GroupV>::empty().push(s[0]));
        }
    } else {
        vstd::seq_lib::lemma_multiset_commutative(seq![g], s);
        assert(seq![g].to_multiset() =~= Multiset::<GroupV>::empty().insert(g)) by {
            assert(seq![g] =~= Seq::<GroupV>::empty().push(g));
        }
    }
}

/// The canonical arrangement is sorted and holds exactly the original
/// groups.
pub proof fn lemma_sort_spec_props(s: Seq<GroupV>)
    ensures
        sort_spec(s).len() == s.len(),
        groups_sorted(sort_spec(s)),
        sort_spec(s).to_multiset() =~= s.to_multiset(),
    decreases s.len(),
{
    broadcast use vstd::seq_lib::group_to_multiset_ensures;

    if s.len() > 0 {
        lemma_sort_spec_props(s.drop_last());
        lemma_insert_sorted_sorted(s.last(), sort_spec(s.drop_last()));
        lemma_insert_sorted_multiset(s.last(), sort_spec(s.drop_last()));
        lemma_insert_sorted_elems(s.last(), sort_spec(s.drop_last()));
        assert(s.drop_last().push(s.last()) =~= s);
        assert(s.drop_last().push(s.last()).to_multiset() =~= s.drop_last().to_multiset().insert(
            s.last(),
        ));
    }
}

/// Where the insertion lands: in front of the first entry that is not
/// "less or equal" to the inserted group.
proof fn lemma_insert_sorted_at(g: GroupV, s: Seq<GroupV>, j: int)
    requires
        0 <= j <= s.len(),
        forall|k: int| 0 <= k < j ==> group_le(#[trigger] s[k], g),
        j < s.len() ==> !group_le(s[j], g),
    ensures
        insert_sorted(g, s) =~= s.take(j) + seq![g] + s.skip(j),
    decreases s.len(),
{
    if s.len() == 0 {
    } else if j == 0 {
    } else {
        assert(group_le(s[0], g));
        assert forall|k: int| 0 <= k < j - 1 implies group_le(#[trigger] s.drop_first()[k], g) by {
            assert(s.drop_first()[k] == s[k + 1]);
        }
        lemma_insert_sorted_at(g, s.drop_first(), j - 1);
        assert(s.drop_first().take(j - 1) =~= s.take(j).drop_first());
        assert(s.drop_first().skip(j - 1) =~= s.skip(j));
    }
}

/// Decides the group order [`group_le`].
fn group_le_exec(a: &MeasurementGroup, b: &MeasurementGroup) -> (r: bool)
    ensures
        r == group_le(a.deep_view(), b.deep_view()),
{
    if str_eq(a.run.as_str(), b.run.as_str()) {
        lex_le_str(a.version.as_str(), b.version.as_str())
    } else {
        lex_le_str(a.run.as_str(), b.run.as_str())
    }
}

/// Sorts measurement groups by run identifier, then version label,
/// producing the canonical arrangement [`sort_spec`] of the input.
pub fn sort_groups(v: Vec<MeasurementGroup>) -> (r: Vec<MeasurementGroup>)
    ensures
        r.deep_view() == sort_spec(v.deep_view()),
        groups_sorted(r.deep_view()),
        r.deep_view().to_multiset() =~= v.deep_view().to_multiset(),
{
    proof {
        lemma_sort_spec_props(v.deep_view());
    }
    let ghost dv = v.deep_view();
    let mut out: Vec<MeasurementGroup> = Vec::new();
    let mut i: usize = 0;
    while i < v.len()
        invariant
            i <= v.len(),
            dv == v.deep_view(),
            out.deep_view() == sort_spec(dv.take(i as int)),
        decreases v.len() - i,
    {
        let g = v[i].clone();
        let ghost gv = g.deep_view();
        let ghost before = out.deep_view();
        let mut j: usize = 0;
        while j < out.len() && group_le_exec(&out[j], &g)
            invariant
                j <= out.len(),
                before == out.deep_view(),
                gv == g.deep_view(),
                forall|k: int| 0 <= k < j ==> group_le(#[trigger] before[k], gv),
            decreases out.len() - j,
        {
            j = j + 1;
        }
        out.insert(j, g);
        proof {
            lemma_insert_sorted_at(gv, before, j as int);
            assert(out.deep_view() =~= before.take(j as int) + seq![gv] + before.skip(j as int));
            assert(dv.take(i + 1).drop_last() =~= dv.take(i as int));
            assert(dv.take(i + 1).last() == dv[i as int]);
            assert(out.deep_view() == sort_spec(dv.take(i + 1)));
        }
        i = i + 1;
    }
    proof {
        assert(dv.take(v.len() as int) =~= dv);
    }
    out
}

/// The two comparison records produced for one run: first the median
/// comparison, then the standard-deviation comparison, both stamped with
/// the same capture time.
pub open spec fn spec_calculation_pair(
    metric: Seq<char>,
    dev: MeasurementV,
    baseline: MeasurementV,
    ts: i64,
) -> Seq<CalcV> {
    seq![
        CalcV {
            metric: "median_"@ + metric,
            regression: spec_exceeds(dev.median, baseline.median, spec_median_threshold()),
            ts: ts,
            data: Data {
                threshold: spec_median_threshold(),
                difference: Ratio { num: dev.median, den: baseline.median },
                baseline: baseline.median,
                dev: dev.median,
            },
        },
        CalcV {
            metric: "stddev_"@ + metric,
            regression: spec_exceeds(dev.stddev, baseline.stddev, spec_stddev_threshold()),
            ts: ts,
            data: Data {
                threshold: spec_stddev_threshold(),
                difference: Ratio { num: dev.stddev, den: baseline.stddev },
                baseline: baseline.stddev,
                dev: dev.stddev,
            },
        },
    ]
}

/// Produces the median and standard-deviation calculations for one
/// dev/baseline measurement pair, stamped with the given capture time.
pub fn calculate_at(metric: &str, dev: &Measurement, baseline: &Measurement, ts: i64) -> (r: Vec<
    Calculation,
>)
    ensures
        r.deep_view() == spec_calculation_pair(metric@, dev.deep_view(), baseline.deep_view(), ts),
{
    let mut median_name = String::from_str("median_");
    median_name.append(metric);
    let mut stddev_name = String::from_str("stddev_");
    stddev_name.append(metric);

    let median_regression = exceeds(dev.median, baseline.median, median_threshold());
    let stddev_regression = exceeds(dev.stddev, baseline.stddev, stddev_threshold());

    let mut r: Vec<Calculation> = Vec::new();
    r.push(
        Calculation {
            metric: median_name,
            regression: median_regression,
            ts,
            data: Data {
                threshold: median_threshold(),
                difference: Ratio { num: dev.median, den: baseline.median },
                baseline: baseline.median,
                dev: dev.median,
            },
        },
    );
    r.push(
        Calculation {
            metric: stddev_name,
            regression: stddev_regression,
            ts,
            data: Data {
                threshold: stddev_threshold(),
                difference: Ratio { num: dev.stddev, den: baseline.stddev },
                baseline: baseline.stddev,
                dev: dev.stddev,
            },
        },
    );
    proof {
        assert(r.deep_view() =~= spec_calculation_pair(
            metric@,
            dev.deep_view(),
            baseline.deep_view(),
            ts,
        ));
    }
    r
}

/// One validated baseline/dev pairing.
#[verifier::ext_equal]
pub ghost struct RunPairV {
    pub run: Seq<char>,
    pub baseline: MeasurementV,
    pub dev: MeasurementV,
}

/// What pairing a sorted group sequence produces: the validated pairs,
/// or the first shape error encountered.
#[verifier::ext_equal]
pub ghost enum PairOutcomeV {
    Pairs(Seq<RunPairV>),
    BadGroupSize(int, Seq<GroupV>),
    BadBranchName(Seq<char>, Seq<char>),
}

/// The end of the block of entries whose run equals `r`, scanning from
/// index `i`.
pub open spec fn block_end(s: Seq<GroupV>, r: Seq<char>, i: int) -> int
    recommends
        0 <= i <= s.len(),
    decreases s.len() - i,
{
    if i >= s.len() {
        i
    } else if s[i].run != r {
        i
    } else {
        block_end(s, r, i + 1)
    }
}

pub proof fn lemma_block_end_bounds(s: Seq<GroupV>, r: Seq<char>, i: int)
    requires
        0 <= i <= s.len(),
    ensures
        i <= block_end(s, r, i) <= s.len(),
        forall|j: int| i <= j < block_end(s, r, i) ==> #[trigger] s[j].run == r,
        block_end(s, r, i) < s.len() ==> s[block_end(s, r, i)].run != r,
    decreases s.len() - i,
{
    if i < s.len() && s[i].run == r {
        lemma_block_end_bounds(s, r, i + 1);
    }
}

/// A scan that sees `r` up to `k` and something else (or the end) at `k`
/// ends exactly at `k`.
pub proof fn lemma_block_end_is(s: Seq<GroupV>, r: Seq<char>, i: int, k: int)
    requires
        0 <= i <= k <= s.len(),
        forall|j: int| i <= j < k ==> #[trigger] s[j].run == r,
        k < s.len() ==> s[k].run != r,
    ensures
        block_end(s, r, i) == k,
    decreases k - i,
{
    if i < k {
        lemma_block_end_is(s, r, i + 1, k);
    }
}

/// Pairs up a group sequence by contiguous blocks of equal run: each
/// block must hold exactly two entries, labelled `baseline` and `dev` in
/// that order. The first offending block decides the error (fail-fast).
pub open spec fn spec_pair_runs(s: Seq<GroupV>) -> PairOutcomeV
    decreases s.len(),
{
    if s.len() == 0 {
        PairOutcomeV::Pairs(Seq::empty())
    } else {
        let k = block_end(s, s[0].run, 0);
        if k == 2 && s.len() >= 2 {
            if s[0].version == "baseline"@ && s[1].version == "dev"@ {
                match spec_pair_runs(s.skip(2)) {
                    PairOutcomeV::Pairs(rest) => PairOutcomeV::Pairs(
                        seq![
                            RunPairV {
                                run: s[0].run,
                                baseline: s[0].measurement,
                                dev: s[1].measurement,
                            },
                        ] + rest,
                    ),
                    e => e,
                }
            } else {
                PairOutcomeV::BadBranchName(s[0].version, s[1].version)
            }
        } else {
            PairOutcomeV::BadGroupSize(k, s.take(k))
        }
    }
}

/// The calculations of a pair list: two records per pair, in pair order.
pub open spec fn calcs_of_pairs(ps: Seq<RunPairV>, ts: i64) -> Seq<CalcV>
    decreases ps.len(),
{
    if ps.len() == 0 {
        Seq::empty()
    } else {
        spec_calculation_pair(ps[0].run, ps[0].dev, ps[0].baseline, ts) + calcs_of_pairs(
            ps.drop_first(),
            ts,
        )
    }
}

proof fn lemma_calcs_of_pairs_push(ps: Seq<RunPairV>, p: RunPairV, ts: i64)
    ensures
        calcs_of_pairs(ps.push(p), ts) =~~= calcs_of_pairs(ps, ts) + spec_calculation_pair(
            p.run,
            p.dev,
            p.baseline,
            ts,
        ),
    decreases ps.len(),
{
    let pushed = ps.push(p);
    assert(pushed.len() == ps.len() + 1);
    if ps.len() == 0 {
        assert(pushed[0] == p);
        assert(pushed.drop_first() =~= Seq::<RunPairV>::empty());
        assert(calcs_of_pairs(pushed.drop_first(), ts) == Seq::<CalcV>::empty());
        assert(calcs_of_pairs(pushed, ts) == spec_calculation_pair(p.run, p.dev, p.baseline, ts)
            + calcs_of_pairs(pushed.drop_first(), ts));
    } else {
        assert(pushed.drop_first() =~= ps.drop_first().push(p));
        lemma_calcs_of_pairs_push(ps.drop_first(), p, ts);
        assert(pushed[0] == ps[0]);
        assert(calcs_of_pairs(pushed, ts) == spec_calculation_pair(
            ps[0].run,
            ps[0].dev,
            ps[0].baseline,
            ts,
        ) + calcs_of_pairs(ps.drop_first().push(p), ts));
    }
}

/// The outcome of pairing a whole sequence, given the pairs already
/// produced from a processed prefix and the outcome of the remaining
/// suffix.
pub open spec fn pair_compose(ps: Seq<RunPairV>, o: PairOutcomeV) -> PairOutcomeV {
    match o {
        PairOutcomeV::Pairs(rest) => PairOutcomeV::Pairs(ps + rest),
        e => e,
    }
}

proof fn lemma_pair_compose_empty(o: PairOutcomeV)
    ensures
        pair_compose(Seq::empty(), o) == o,
{
    match o {
        PairOutcomeV::Pairs(rest) => {
            assert(Seq::<RunPairV>::empty() + rest =~= rest);
        },
        _ => {},
    }
}

proof fn lemma_pair_compose_step(done: Seq<RunPairV>, p: RunPairV, o: PairOutcomeV)
    ensures
        pair_compose(
            done,
            match o {
                PairOutcomeV::Pairs(rest) => PairOutcomeV::Pairs(seq![p] + rest),
                e => e,
            },
        ) == pair_compose(done.push(p), o),
{
    match o {
        PairOutcomeV::Pairs(rest) => {
            assert(done + (seq![p] + rest) =~= done.push(p) + rest);
        },
        _ => {},
    }
}

/// Produces the median and standard-deviation calculations for one
/// dev/baseline measurement pair, stamped with one capture time read from
/// the clock and shared by both records.
pub fn calculate(metric: &str, dev: &Measurement, baseline: &Measurement) -> (r: Vec<Calculation>)
    ensures
        exists|ts: i64|
            r.deep_view() == #[trigger] spec_calculation_pair(
                metric@,
                dev.deep_view(),
                baseline.deep_view(),
                ts,
            ),
{
    let ts = now_timestamp();
    let r = calculate_at(metric, dev, baseline, ts);
    proof {
        assert(r.deep_view() == spec_calculation_pair(
            metric@,
            dev.deep_view(),
            baseline.deep_view(),
            ts,
        ));
    }
    r
}

/// A path together with the single measurement its file held.
#[verifier::ext_equal]
pub ghost struct PathMeasV {
    pub path: Seq<char>,
    pub measurement: MeasurementV,
}

/// The images of a path/measurement list.
pub open spec fn pm_views(ms: Seq<(String, Measurement)>) -> Seq<PathMeasV> {
    Seq::new(
        ms.len(),
        |i: int| PathMeasV { path: ms[i].0@, measurement: ms[i].1.deep_view() },
    )
}

/// The group derived from one path and its measurement: the version and
/// run come from the file stem of the path's file-name component.
pub open spec fn spec_group_of(pm: PathMeasV) -> GroupV
    recommends
        spec_file_name(pm.path) is Some,
{
    match spec_file_name(pm.path) {
        Option::Some(name) => {
            let stem = spec_stem(name);
            GroupV {
                version: spec_version_of(stem),
                run: spec_run_of(stem),
                measurement: pm.measurement,
            }
        },
        Option::None => GroupV {
            version: Seq::empty(),
            run: Seq::empty(),
            measurement: pm.measurement,
        },
    }
}

/// Whether a path properly names a run's measurement: it has a file
/// name, and the file stem decomposes into a version label and a
/// non-empty run identifier around an underscore. A stem with no
/// underscore, or with nothing after its first underscore, names no run
/// and is a structural error.
pub open spec fn spec_path_names_run(path: Seq<char>) -> bool {
    match spec_file_name(path) {
        Option::Some(name) => spec_run_of(spec_stem(name)).len() > 0,
        Option::None => false,
    }
}

/// The first index at or after `i` whose path does not properly name a
/// run's measurement, or the length when every path does.
pub open spec fn first_misnamed(pms: Seq<PathMeasV>, i: int) -> int
    recommends
        0 <= i <= pms.len(),
    decreases pms.len() - i,
{
    if i >= pms.len() {
        i
    } else if !spec_path_names_run(pms[i].path) {
        i
    } else {
        first_misnamed(pms, i + 1)
    }
}

pub proof fn lemma_first_misnamed_bounds(pms: Seq<PathMeasV>, i: int)
    requires
        0 <= i <= pms.len(),
    ensures
        i <= first_misnamed(pms, i) <= pms.len(),
        forall|j: int|
            i <= j < first_misnamed(pms, i) ==> spec_path_names_run(#[trigger] pms[j].path),
    decreases pms.len() - i,
{
    if i < pms.len() && spec_path_names_run(pms[i].path) {
        lemma_first_misnamed_bounds(pms, i + 1);
    }
}

pub proof fn lemma_first_misnamed_is(pms: Seq<PathMeasV>, i: int, k: int)
    requires
        0 <= i <= k <= pms.len(),
        forall|j: int| i <= j < k ==> spec_path_names_run(#[trigger] pms[j].path),
        k < pms.len() ==> !spec_path_names_run(pms[k].path),
    ensures
        first_misnamed(pms, i) == k,
    decreases k - i,
{
    if i < k {
        lemma_first_misnamed_is(pms, i + 1, k);
    }
}

/// What regression calculation produces for a path/measurement list: the
/// flat calculation list, or the first error encountered. The paths are
/// turned into groups, failing fast on the first path that does not
/// properly name a run's measurement (no file name, no underscore in the
/// stem, or an empty run identifier); the groups are brought into their
/// canonical order, and the pairing of that order decides the rest.
pub open spec fn spec_calculate_regressions(pms: Seq<PathMeasV>, ts: i64) -> Result<
    Seq<CalcV>,
    CalculateErrorV,
> {
    let bad = first_misnamed(pms, 0);
    if bad < pms.len() {
        Result::Err(
            CalculateErrorV::CalculateIOError(IOErrorV::MissingFilenameErr(pms[bad].path)),
        )
    } else {
        let sorted = sort_spec(Seq::new(pms.len(), |i: int| spec_group_of(pms[i])));
        match spec_pair_runs(sorted) {
            PairOutcomeV::Pairs(ps) => Result::Ok(calcs_of_pairs(ps, ts)),
            PairOutcomeV::BadGroupSize(k, gs) => Result::Err(
                CalculateErrorV::BadGroupSizeErr(k as usize, gs),
            ),
            PairOutcomeV::BadBranchName(a, b) => Result::Err(
                CalculateErrorV::BadBranchNameErr(a, b),
            ),
        }
    }
}

/// Groups a path/measurement list by the run identifiers encoded in the
/// file names, validates each pairing, and produces the calculations of
/// every validated pair, all stamped with the given capture time.
pub fn calculate_regressions(measurements: Vec<(String, Measurement)>, ts: i64) -> (r: Result<
    Vec<Calculation>,
    CalculateError,
>)
    ensures
        ({
            let s = spec_calculate_regressions(pm_views(measurements@), ts);
            match r {
                Result::Ok(v) => s == Result::<_, CalculateErrorV>::Ok(v.deep_view()),
                Result::Err(e) => s == Result::<Seq<CalcV>, _>::Err(e.deep_view()),
            }
        }),
{
    let ghost pms = pm_views(measurements@);
    let mut groups: Vec<MeasurementGroup> = Vec::new();
    let mut i: usize = 0;
    while i < measurements.len()
        invariant
            i <= measurements.len(),
            pms == pm_views(measurements@),
            groups.deep_view() =~~= Seq::new(i as nat, |j: int| spec_group_of(pms[j])),
            forall|j: int| 0 <= j < i ==> spec_path_names_run(#[trigger] pms[j].path),
        decreases measurements.len() - i,
    {
        let pair = &measurements[i];
        match file_name_of(pair.0.as_str()) {
            Option::None => {
                proof {
                    lemma_first_misnamed_is(pms, 0, i as int);
                }
                return Result::Err(
                    CalculateError::CalculateIOError(IOError::MissingFilenameErr(pair.0.clone())),
                );
            },
            Option::Some(name) => {
                let stem = stem_of(name);
                let (version, run) = split_version_run(stem);
                if run.as_str().is_empty() {
                    proof {
                        lemma_first_misnamed_is(pms, 0, i as int);
                    }
                    return Result::Err(
                        CalculateError::CalculateIOError(
                            IOError::MissingFilenameErr(pair.0.clone()),
                        ),
                    );
                }
                let g = MeasurementGroup { version, run, measurement: pair.1.clone() };
                proof {
                    assert(pms[i as int] == PathMeasV {
                        path: measurements@[i as int].0@,
                        measurement: measurements@[i as int].1.deep_view(),
                    });
                    assert(g.deep_view() =~~= spec_group_of(pms[i as int]));
                }
                let ghost dv_before = groups.deep_view();
                let ghost vb = groups@;
                proof {
                    lemma_vec_deep_view_len(&groups);
                    assert forall|j: int| 0 <= j < vb.len() implies dv_before[j]
                        == vb[j].deep_view() by {
                        lemma_vec_deep_view_index(&groups, j);
                    }
                }
                groups.push(g);
                proof {
                    let dv_after = groups.deep_view();
                    lemma_vec_deep_view_len(&groups);
                    assert forall|j: int| 0 <= j < i + 1 implies dv_after[j] == spec_group_of(
                        pms[j],
                    ) by {
                        lemma_vec_deep_view_index(&groups, j);
                        if j < i {
                            assert(groups@[j] == vb[j]);
                            assert(dv_before[j] == spec_group_of(pms[j]));
                            assert(dv_before[j] == vb[j].deep_view());
                        } else {
                            assert(groups@[j] == g);
                        }
                    }
                    assert(groups.deep_view() =~~= Seq::new(
                        (i + 1) as nat,
                        |j: int| spec_group_of(pms[j]),
                    ));
                }
            },
        }
        i = i + 1;
    }
    proof {
        lemma_first_misnamed_is(pms, 0, pms.len() as int);
    }
    let sorted = sort_groups(groups);
    let ghost sdv = sorted.deep_view();
    let ghost whole = spec_pair_runs(sdv);

    let mut out: Vec<Calculation> = Vec::new();
    let ghost mut done: Seq<RunPairV> = Seq::empty();
    proof {
        assert(sdv.skip(0) =~= sdv);
        lemma_pair_compose_empty(spec_pair_runs(sdv));
    }
    let mut i: usize = 0;
    while i < sorted.len()
        invariant
            i <= sorted.len(),
            sdv == sorted.deep_view(),
            whole == spec_pair_runs(sdv),
            whole == pair_compose(done, spec_pair_runs(sdv.skip(i as int))),
            out.deep_view() =~~= calcs_of_pairs(done, ts),
            ({
                let s = spec_calculate_regressions(pm_views(measurements@), ts);
                match whole {
                    PairOutcomeV::Pairs(ps) => s == Result::<_, CalculateErrorV>::Ok(
                        calcs_of_pairs(ps, ts),
                    ),
                    PairOutcomeV::BadGroupSize(k, gs) => s == Result::<Seq<CalcV>, _>::Err(
                        CalculateErrorV::BadGroupSizeErr(k as usize, gs),
                    ),
                    PairOutcomeV::BadBranchName(a, b) => s == Result::<Seq<CalcV>, _>::Err(
                        CalculateErrorV::BadBranchNameErr(a, b),
                    ),
                }
            }),
        decreases sorted.len() - i,
    {
        let ghost tail = sdv.skip(i as int);
        let mut j: usize = i + 1;
        while j < sorted.len() && str_eq(sorted[j].run.as_str(), sorted[i].run.as_str())
            invariant
                i < j <= sorted.len(),
                i < sorted.len(),
                sdv == sorted.deep_view(),
                forall|m: int| i <= m < j ==> #[trigger] sdv[m].run == sdv[i as int].run,
            decreases sorted.len() - j,
        {
            j = j + 1;
        }
        proof {
            assert forall|m: int| 0 <= m < j - i implies #[trigger] tail[m].run == tail[0].run by {
                assert(sdv[i + m].run == sdv[i as int].run);
            }
            if j < sorted.len() {
                assert(tail[j - i].run != tail[0].run) by {
                    assert(sdv[j as int].run != sdv[i as int].run);
                }
            }
            lemma_block_end_is(tail, tail[0].run, 0, j - i);
        }
        let k = j - i;
        if k != 2 {
            let mut payload: Vec<MeasurementGroup> = Vec::new();
            let mut m: usize = i;
            while m < j
                invariant
                    i <= m <= j <= sorted.len(),
                    sdv == sorted.deep_view(),
                    payload.deep_view() =~~= sdv.subrange(i as int, m as int),
                decreases j - m,
            {
                let gc = sorted[m].clone();
                proof {
                    lemma_vec_deep_view_index(&sorted, m as int);
                }
                let ghost dv_before = payload.deep_view();
                let ghost vb = payload@;
                proof {
                    lemma_vec_deep_view_len(&payload);
                    assert forall|t: int| 0 <= t < vb.len() implies dv_before[t]
                        == vb[t].deep_view() by {
                        lemma_vec_deep_view_index(&payload, t);
                    }
                }
                payload.push(gc);
                proof {
                    let dv_after = payload.deep_view();
                    lemma_vec_deep_view_len(&payload);
                    assert forall|t: int| 0 <= t < dv_after.len() implies dv_after[t] == sdv[i
                        + t] by {
                        lemma_vec_deep_view_index(&payload, t);
                        if t < vb.len() {
                            assert(payload@[t] == vb[t]);
                            assert(dv_before[t] == vb[t].deep_view());
                            assert(dv_before[t] == sdv[i + t]);
                        } else {
                            assert(payload@[t] == gc);
                            assert(gc.deep_view() == sdv[m as int]);
                        }
                    }
                    assert(payload.deep_view() =~~= sdv.subrange(i as int, m + 1));
                }
                m = m + 1;
            }
            proof {
                assert(tail.take(k as int) =~= sdv.subrange(i as int, j as int));
            }
            return Result::Err(CalculateError::BadGroupSizeErr(k, payload));
        }
        let baseline_ok = str_eq(sorted[i].version.as_str(), "baseline");
        let dev_ok = str_eq(sorted[i + 1].version.as_str(), "dev");
        if !(baseline_ok && dev_ok) {
            return Result::Err(
                CalculateError::BadBranchNameErr(
                    sorted[i].version.clone(),
                    sorted[i + 1].version.clone(),
                ),
            );
        }
        let mut pair_calcs = calculate_at(
            sorted[i].run.as_str(),
            &sorted[i + 1].measurement,
            &sorted[i].measurement,
            ts,
        );
        let ghost old_out = out.deep_view();
        out.append(&mut pair_calcs);
        proof {
            let p = RunPairV {
                run: tail[0].run,
                baseline: tail[0].measurement,
                dev: tail[1].measurement,
            };
            assert(tail[0] == sdv[i as int]);
            assert(tail[1] == sdv[i + 1]);
            assert(tail.skip(2) =~= sdv.skip(i + 2));
            lemma_pair_compose_step(done, p, spec_pair_runs(tail.skip(2)));
            lemma_calcs_of_pairs_push(done, p, ts);
            assert(out.deep_view() =~~= calcs_of_pairs(done.push(p), ts));
            done = done.push(p);
        }
        i = j;
    }
    proof {
        assert(sdv.skip(i as int) =~= Seq::<GroupV>::empty());
        assert(whole == pair_compose(done, PairOutcomeV::Pairs(Seq::empty())));
        assert(done + Seq::<RunPairV>::empty() =~= done);
    }
    Result::Ok(out)
}

/// One results file: its path and the measurements parsed from it.
#[verifier::ext_equal]
pub ghost struct FileV {
    pub path: Seq<char>,
    pub results: Seq<MeasurementV>,
}

/// The images of a list of parsed results files.
pub open spec fn files_views(files: Seq<(String, Measurements)>) -> Seq<FileV> {
    Seq::new(files.len(), |i: int| FileV { path: files[i].0@, results: files[i].1.deep_view() })
}

/// The first index at or after `i` whose file holds no measurement, or
/// the length when every file holds one.
pub open spec fn first_empty(files: Seq<FileV>, i: int) -> int
    recommends
        0 <= i <= files.len(),
    decreases files.len() - i,
{
    if i >= files.len() {
        i
    } else if files[i].results.len() == 0 {
        i
    } else {
        first_empty(files, i + 1)
    }
}

pub proof fn lemma_first_empty_bounds(files: Seq<FileV>, i: int)
    requires
        0 <= i <= files.len(),
    ensures
        i <= first_empty(files, i) <= files.len(),
        forall|j: int| i <= j < first_empty(files, i) ==> (#[trigger] files[j].results).len() > 0,
    decreases files.len() - i,
{
    if i < files.len() && files[i].results.len() > 0 {
        lemma_first_empty_bounds(files, i + 1);
    }
}

pub proof fn lemma_first_empty_is(files: Seq<FileV>, i: int, k: int)
    requires
        0 <= i <= k <= files.len(),
        forall|j: int| i <= j < k ==> (#[trigger] files[j].results).len() > 0,
        k < files.len() ==> files[k].results.len() == 0,
    ensures
        first_empty(files, i) == k,
    decreases k - i,
{
    if i < k {
        lemma_first_empty_is(files, i + 1, k);
    }
}

/// What the whole pipeline produces for a list of parsed results files
/// from a directory: a flat calculation list, or the first error. An
/// empty list and an odd count are rejected up front; then every file is
/// unwrapped to its first measurement (an empty measurement set is a
/// structural error tied to its file), and grouping and calculation
/// decide the rest.
pub open spec fn spec_regressions(files: Seq<FileV>, dir: Seq<char>, ts: i64) -> Result<
    Seq<CalcV>,
    CalculateErrorV,
> {
    if files.len() == 0 {
        Result::Err(CalculateErrorV::NoResultsErr(dir))
    } else if files.len() % 2 == 1 {
        Result::Err(CalculateErrorV::OddResultsCountErr(files.len() as usize, dir))
    } else {
        let e = first_empty(files, 0);
        if e < files.len() {
            Result::Err(CalculateErrorV::BadJSONErr(files[e].path, Option::None))
        } else {
            spec_calculate_regressions(
                Seq::new(
                    files.len(),
                    |i: int| PathMeasV { path: files[i].path, measurement: files[i].results[0] },
                ),
                ts,
            )
        }
    }
}

/// Runs the whole pipeline on a list of parsed results files, stamping
/// every calculation with the given capture time.
pub fn regressions_at(
    files: &Vec<(String, Measurements)>,
    results_directory: &str,
    ts: i64,
) -> (r: Result<Vec<Calculation>, CalculateError>)
    ensures
        ({
            let s = spec_regressions(files_views(files@), results_directory@, ts);
            match r {
                Result::Ok(v) => s == Result::<_, CalculateErrorV>::Ok(v.deep_view()),
                Result::Err(e) => s == Result::<Seq<CalcV>, _>::Err(e.deep_view()),
            }
        }),
{
    let ghost fv = files_views(files@);
    let n = files.len();
    if n == 0 {
        return Result::Err(CalculateError::NoResultsErr(String::from_str(results_directory)));
    }
    if n % 2 == 1 {
        return Result::Err(
            CalculateError::OddResultsCountErr(n, String::from_str(results_directory)),
        );
    }
    let mut ms: Vec<(String, Measurement)> = Vec::new();
    let mut i: usize = 0;
    while i < n
        invariant
            i <= n,
            n == files.len(),
            n % 2 != 1,
            fv == files_views(files@),
            forall|j: int| 0 <= j < i ==> (#[trigger] fv[j].results).len() > 0,
            pm_views(ms@) =~~= Seq::new(
                i as nat,
                |j: int| PathMeasV { path: fv[j].path, measurement: fv[j].results[0] },
            ),
        decreases n - i,
    {
        let f = &files[i];
        if f.1.results.len() == 0 {
            proof {
                lemma_vec_deep_view_len(&f.1.results);
                lemma_first_empty_is(fv, 0, i as int);
            }
            return Result::Err(CalculateError::BadJSONErr(f.0.clone(), None));
        }
        proof {
            lemma_vec_deep_view_index(&f.1.results, 0);
        }
        let m = f.1.results[0].clone();
        let path_c = f.0.clone();
        let ghost pv_before = pm_views(ms@);
        let ghost vb = ms@;
        let ghost entry = (path_c, m);
        proof {
            assert(pv_before.len() == i as int);
            assert(vb.len() == i as int);
        }
        ms.push((path_c, m));
        proof {
            let pv_after = pm_views(ms@);
            assert forall|j: int| 0 <= j < i + 1 implies pv_after[j] == PathMeasV {
                path: fv[j].path,
                measurement: fv[j].results[0],
            } by {
                if j < i {
                    assert(ms@[j] == vb[j]);
                    assert(pv_after[j] == pv_before[j]);
                } else {
                    assert(ms@[j] == entry);
                }
            }
            assert(pm_views(ms@) =~~= Seq::new(
                (i + 1) as nat,
                |j: int| PathMeasV { path: fv[j].path, measurement: fv[j].results[0] },
            ));
        }
        i = i + 1;
    }
    proof {
        lemma_first_empty_is(fv, 0, fv.len() as int);
        assert(pm_views(ms@) =~~= Seq::new(
            fv.len(),
            |j: int| PathMeasV { path: fv[j].path, measurement: fv[j].results[0] },
        ));
    }
    calculate_regressions(ms, ts)
}

/// Runs the whole pipeline on a list of parsed results files, reading
/// one capture time from the clock that every calculation shares.
pub fn regressions(files: &Vec<(String, Measurements)>, results_directory: &str) -> (r: Result<
    Vec<Calculation>,
    CalculateError,
>)
    ensures
        exists|ts: i64|
            ({
                let s = #[trigger] spec_regressions(files_views(files@), results_directory@, ts);
                match r {
                    Result::Ok(v) => s == Result::<_, CalculateErrorV>::Ok(v.deep_view()),
                    Result::Err(e) => s == Result::<Seq<CalcV>, _>::Err(e.deep_view()),
                }
            }),
{
    let ts = now_timestamp();
    let r = regressions_at(files, results_directory, ts);
    proof {
        let s = spec_regressions(files_views(files@), results_directory@, ts);
        assert(match r {
            Result::Ok(v) => s == Result::<_, CalculateErrorV>::Ok(v.deep_view()),
            Result::Err(e) => s == Result::<Seq<CalcV>, _>::Err(e.deep_view()),
        });
    }
    r
}

/// Whether any calculation in the list is flagged as a regression.
pub fn has_regressions(calcs: &Vec<Calculation>) -> (r: bool)
    ensures
        r == exists|i: int| 0 <= i < calcs.len() && (#[trigger] calcs[i].regression),
{
    let mut i: usize = 0;
    while i < calcs.len()
        invariant
            i <= calcs.len(),
            forall|j: int| 0 <= j < i ==> !(#[trigger] calcs[j].regression),
        decreases calcs.len() - i,
    {
        if calcs[i].regression {
            return true;
        }
        i = i + 1;
    }
    false
}


} // verus!

