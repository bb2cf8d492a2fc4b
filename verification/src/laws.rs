//! The laws of the regression pipeline: statements that relate whole
//! runs of the engine, proved once and for all inputs.

use vstd::prelude::*;

use crate::calculate::block_end;
use crate::calculate::first_empty;
use crate::calculate::first_misnamed;
use crate::calculate::group_le;
use crate::calculate::groups_sorted;
use crate::calculate::lemma_block_end_bounds;
use crate::calculate::lemma_group_le_antisym_keys;
use crate::calculate::lemma_group_le_connected;
use crate::calculate::lemma_sort_spec_props;
use crate::calculate::sort_spec;
use crate::calculate::calcs_of_pairs;
use crate::calculate::spec_calculate_regressions;
use crate::calculate::spec_calculation_pair;
use crate::calculate::spec_exceeds;
use crate::calculate::spec_group_of;
use crate::calculate::spec_median_threshold;
use crate::calculate::spec_stddev_threshold;
use crate::calculate::spec_pair_runs;
use crate::calculate::spec_regressions;
use crate::calculate::FileV;
use crate::calculate::PairOutcomeV;
use crate::calculate::PathMeasV;
use crate::calculate::RunPairV;
use crate::records::MeasurementV;
use crate::errors::CalculateErrorV;
use crate::records::CalcV;
use crate::records::GroupV;
use crate::strutil::lemma_lex_le_antisym;
use crate::calculate::spec_path_names_run;

verus! {

/// A map over multiset-equal sequences yields multiset-equal sequences.
proof fn lemma_map_values_multiset<A, B>(s1: Seq<A>, s2: Seq<A>, f: spec_fn(A) -> B)
    requires
        s1.to_multiset() == s2.to_multiset(),
    ensures
        s1.map_values(f).to_multiset() == s2.map_values(f).to_multiset(),
    decreases s1.len(),
{
    broadcast use vstd::seq_lib::group_to_multiset_ensures;
    broadcast use vstd::multiset::group_multiset_axioms;

    assert(s1.to_multiset().len() == s1.len());
    assert(s2.to_multiset().len() == s2.len());
    if s1.len() == 0 {
        assert(s2.len() == 0);
        assert(s1.map_values(f) =~= Seq::<B>::empty());
        assert(s2.map_values(f) =~= Seq::<B>::empty());
        assert(s1.map_values(f).to_multiset() =~= s2.map_values(f).to_multiset());
    } else {
        let x = s1[0];
        assert(s1.contains(x));
        assert(s2.to_multiset().count(x) > 0);
        assert(s2.contains(x));
        let j = choose|j: int| 0 <= j < s2.len() && s2[j] == x;
        assert(s1.remove(0).to_multiset() =~= s1.to_multiset().remove(x));
        assert(s2.remove(j).to_multiset() =~= s2.to_multiset().remove(x));
        lemma_map_values_multiset(s1.remove(0), s2.remove(j), f);
        let m1 = s1.map_values(f);
        let m2 = s2.map_values(f);
        assert(s1.remove(0).map_values(f) =~= m1.remove(0));
        assert(s2.remove(j).map_values(f) =~= m2.remove(j));
        assert(m1.remove(0).to_multiset() =~= m1.to_multiset().remove(m1[0]));
        assert(m2.remove(j).to_multiset() =~= m2.to_multiset().remove(m2[j]));
        assert(m1[0] == f(x));
        assert(m2[j] == f(x));
        assert(m1.contains(m1[0]));
        assert(m1.to_multiset().count(f(x)) > 0);
        assert(m2.contains(m2[j]));
        assert(m2.to_multiset().count(f(x)) > 0);
        assert(m1.to_multiset() =~= m2.to_multiset()) by {
            assert forall|b: B| m1.to_multiset().count(b) == m2.to_multiset().count(b) by {
                if b == f(x) {
                    assert(m1.to_multiset().remove(f(x)).count(b) == m2.to_multiset().remove(
                        f(x),
                    ).count(b));
                } else {
                    assert(m1.to_multiset().remove(f(x)).count(b) == m2.to_multiset().remove(
                        f(x),
                    ).count(b));
                }
            }
        }
    }
}

/// No two groups share both their run and their version.
pub open spec fn group_keys_distinct(s: Seq<GroupV>) -> bool {
    forall|a: int, b: int|
        0 <= a < b < s.len() ==> !((#[trigger] s[a]).run == (#[trigger] s[b]).run && s[a].version
            == s[b].version)
}

/// When a sorted group sequence pairs up cleanly, no two of its groups
/// share both run and version: each run has exactly one `baseline` and
/// one `dev` entry.
proof fn lemma_pairs_distinct_keys(s: Seq<GroupV>)
    requires
        groups_sorted(s),
        spec_pair_runs(s) is Pairs,
    ensures
        group_keys_distinct(s),
    decreases s.len(),
{
    reveal_strlit("baseline");
    reveal_strlit("dev");
    if s.len() > 0 {
        let k = block_end(s, s[0].run, 0);
        lemma_block_end_bounds(s, s[0].run, 0);
        assert(k == 2 && s.len() >= 2);
        assert(s[0].version == "baseline"@ && s[1].version == "dev"@);
        assert("baseline"@.len() == 8);
        assert("dev"@.len() == 3);
        assert(s[0].version != s[1].version);
        assert(s[1].run == s[0].run);
        lemma_first_block_isolated(s);
        let rest = s.skip(2);
        assert(groups_sorted(rest)) by {
            assert forall|a: int, b: int| 0 <= a < b < rest.len() implies #[trigger] group_le(
                rest[a],
                rest[b],
            ) by {
                assert(group_le(s[a + 2], s[b + 2]));
            }
        }
        assert(spec_pair_runs(rest) is Pairs);
        lemma_pairs_distinct_keys(rest);
        assert forall|a: int, b: int| 0 <= a < b < s.len() implies !((#[trigger] s[a]).run == (
        #[trigger] s[b]).run && s[a].version == s[b].version) by {
            if a >= 2 {
                assert(rest[a - 2] == s[a] && rest[b - 2] == s[b]);
                assert(group_keys_distinct(rest));
            } else if b >= 2 {
                assert(s[b].run != s[0].run);
            }
        }
    }
}

/// Two sorted group sequences with the same groups, one of them free of
/// repeated keys, are the same sequence.
proof fn lemma_sorted_multiset_distinct_eq(x: Seq<GroupV>, y: Seq<GroupV>)
    requires
        groups_sorted(x),
        groups_sorted(y),
        x.to_multiset() == y.to_multiset(),
        group_keys_distinct(x),
    ensures
        x =~= y,
    decreases x.len(),
{
    broadcast use vstd::seq_lib::group_to_multiset_ensures;
    broadcast use vstd::multiset::group_multiset_axioms;

    assert(x.to_multiset().len() == x.len());
    assert(y.to_multiset().len() == y.len());
    if x.len() == 0 {
        assert(y.len() == 0);
    } else {
        assert(y.len() == x.len());
        assert(x.contains(x[0]));
        assert(y.to_multiset().count(x[0]) > 0);
        assert(y.contains(x[0]));
        let jx = choose|j: int| 0 <= j < y.len() && y[j] == x[0];
        assert(y.contains(y[0]));
        assert(x.to_multiset().count(y[0]) > 0);
        assert(x.contains(y[0]));
        let iy = choose|i: int| 0 <= i < x.len() && x[i] == y[0];
        assert(group_le(x[0], y[0])) by {
            if iy == 0 {
                lemma_group_le_connected(x[0], x[0]);
            } else {
                assert(group_le(x[0], x[iy]));
            }
        }
        assert(group_le(y[0], x[0])) by {
            if jx == 0 {
                lemma_group_le_connected(y[0], y[0]);
            } else {
                assert(group_le(y[0], y[jx]));
            }
        }
        lemma_group_le_antisym_keys(x[0], y[0]);
        assert(x[0] == y[0]) by {
            if iy != 0 {
                assert(x[iy].run == x[0].run && x[iy].version == x[0].version);
                assert(false);
            }
        }
        assert(x.remove(0).to_multiset() =~= x.to_multiset().remove(x[0]));
        assert(y.remove(0).to_multiset() =~= y.to_multiset().remove(y[0]));
        assert(groups_sorted(x.remove(0))) by {
            assert forall|a: int, b: int| 0 <= a < b < x.remove(0).len() implies #[trigger] group_le(
                x.remove(0)[a],
                x.remove(0)[b],
            ) by {
                assert(group_le(x[a + 1], x[b + 1]));
            }
        }
        assert(groups_sorted(y.remove(0))) by {
            assert forall|a: int, b: int| 0 <= a < b < y.remove(0).len() implies #[trigger] group_le(
                y.remove(0)[a],
                y.remove(0)[b],
            ) by {
                assert(group_le(y[a + 1], y[b + 1]));
            }
        }
        assert(group_keys_distinct(x.remove(0))) by {
            assert forall|a: int, b: int| 0 <= a < b < x.remove(0).len() implies !((#[trigger] x.remove(
                0,
            )[a]).run == (#[trigger] x.remove(0)[b]).run && x.remove(0)[a].version == x.remove(
                0,
            )[b].version) by {
                assert(x.remove(0)[a] == x[a + 1] && x.remove(0)[b] == x[b + 1]);
                assert(group_keys_distinct(x));
            }
        }
        lemma_sorted_multiset_distinct_eq(x.remove(0), y.remove(0));
        assert forall|t: int| 0 <= t < x.len() implies x[t] == y[t] by {
            if t > 0 {
                assert(x.remove(0)[t - 1] == y.remove(0)[t - 1]);
            }
        }
    }
}

/// Grouping is order-independent: two results-file lists that hold the
/// same files, in any order, yield the same calculations whenever one of
/// them yields calculations at all.
pub proof fn lemma_regressions_order_independent(
    files1: Seq<FileV>,
    files2: Seq<FileV>,
    dir: Seq<char>,
    ts: i64,
)
    requires
        files1.to_multiset() == files2.to_multiset(),
        spec_regressions(files1, dir, ts) is Ok,
    ensures
        spec_regressions(files2, dir, ts) == spec_regressions(files1, dir, ts),
{
    broadcast use vstd::seq_lib::group_to_multiset_ensures;

    let n = files1.len();
    assert(files1.to_multiset().len() == files1.len());
    assert(files2.to_multiset().len() == files2.len());
    assert(files2.len() == n);
    assert(n > 0 && n % 2 != 1);

    // Every file of either list appears in the other, so neither list
    // holds an empty measurement set or a path without a file name.
    crate::calculate::lemma_first_empty_bounds(files1, 0);
    assert(first_empty(files1, 0) == n);
    assert forall|j: int| 0 <= j < n implies (#[trigger] files2[j]).results.len() > 0 by {
        assert(files2.contains(files2[j]));
        assert(files1.to_multiset().count(files2[j]) > 0);
        assert(files1.contains(files2[j]));
        let i = choose|i: int| 0 <= i < n && files1[i] == files2[j];
        assert(files1[i].results.len() > 0);
    }
    crate::calculate::lemma_first_empty_is(files2, 0, n as int);

    let to_pm = |fv: FileV| PathMeasV { path: fv.path, measurement: fv.results[0] };
    let pms1 = Seq::new(n, |i: int| PathMeasV { path: files1[i].path, measurement: files1[i].results[0] });
    let pms2 = Seq::new(n, |i: int| PathMeasV { path: files2[i].path, measurement: files2[i].results[0] });
    assert(pms1 =~= files1.map_values(to_pm));
    assert(pms2 =~= files2.map_values(to_pm));
    lemma_map_values_multiset(files1, files2, to_pm);
    assert(pms1.to_multiset() == pms2.to_multiset());

    crate::calculate::lemma_first_misnamed_bounds(pms1, 0);
    assert(first_misnamed(pms1, 0) == pms1.len());
    assert forall|j: int| 0 <= j < n implies spec_path_names_run(
        (#[trigger] pms2[j]).path,
    ) by {
        assert(pms2.contains(pms2[j]));
        assert(pms1.to_multiset().count(pms2[j]) > 0);
        assert(pms1.contains(pms2[j]));
        let i = choose|i: int| 0 <= i < n && pms1[i] == pms2[j];
        assert(spec_path_names_run(pms1[i].path));
    }
    crate::calculate::lemma_first_misnamed_is(pms2, 0, n as int);

    let g1 = Seq::new(pms1.len(), |i: int| spec_group_of(pms1[i]));
    let g2 = Seq::new(pms2.len(), |i: int| spec_group_of(pms2[i]));
    assert(g1 =~= pms1.map_values(|pm: PathMeasV| spec_group_of(pm)));
    assert(g2 =~= pms2.map_values(|pm: PathMeasV| spec_group_of(pm)));
    lemma_map_values_multiset(pms1, pms2, |pm: PathMeasV| spec_group_of(pm));
    assert(g1.to_multiset() == g2.to_multiset());

    let s1 = sort_spec(g1);
    let s2 = sort_spec(g2);
    lemma_sort_spec_props(g1);
    lemma_sort_spec_props(g2);
    assert(s1.to_multiset() == s2.to_multiset());
    assert(spec_pair_runs(s1) is Pairs) by {
        match spec_pair_runs(s1) {
            PairOutcomeV::Pairs(_) => {},
            PairOutcomeV::BadGroupSize(_, _) => {
                assert(spec_calculate_regressions(pms1, ts) is Err);
            },
            PairOutcomeV::BadBranchName(_, _) => {
                assert(spec_calculate_regressions(pms1, ts) is Err);
            },
        }
    }
    lemma_pairs_distinct_keys(s1);
    lemma_sorted_multiset_distinct_eq(s1, s2);
    assert(s1 == s2);
}

proof fn lemma_filter_none<A>(s: Seq<A>, pred: spec_fn(A) -> bool)
    requires
        forall|i: int| 0 <= i < s.len() ==> !pred(#[trigger] s[i]),
    ensures
        s.filter(pred) =~= Seq::<A>::empty(),
    decreases s.len(),
{
    reveal(Seq::filter);
    if s.len() > 0 {
        assert(!pred(s.last()));
        assert forall|i: int| 0 <= i < s.drop_last().len() implies !pred(
            #[trigger] s.drop_last()[i],
        ) by {
            assert(s.drop_last()[i] == s[i]);
        }
        lemma_filter_none(s.drop_last(), pred);
    }
}

proof fn lemma_filter_all<A>(s: Seq<A>, pred: spec_fn(A) -> bool)
    requires
        forall|i: int| 0 <= i < s.len() ==> pred(#[trigger] s[i]),
    ensures
        s.filter(pred) =~= s,
    decreases s.len(),
{
    reveal(Seq::filter);
    if s.len() > 0 {
        assert(pred(s.last()));
        assert forall|i: int| 0 <= i < s.drop_last().len() implies pred(
            #[trigger] s.drop_last()[i],
        ) by {
            assert(s.drop_last()[i] == s[i]);
        }
        lemma_filter_all(s.drop_last(), pred);
        assert(s.filter(pred) =~= s.drop_last().filter(pred).push(s.last()));
        assert(s.drop_last().push(s.last()) =~= s);
    }
}

/// The run-partition of `r`: every group whose run identifier is `r`, in
/// their order of appearance.
pub open spec fn run_partition(s: Seq<GroupV>, r: Seq<char>) -> Seq<GroupV> {
    s.filter(|g: GroupV| g.run == r)
}

/// In a sorted group sequence whose first block ends at two, no later
/// entry carries the first run again.
proof fn lemma_first_block_isolated(s: Seq<GroupV>)
    requires
        groups_sorted(s),
        s.len() >= 2,
        block_end(s, s[0].run, 0) == 2,
    ensures
        forall|j: int| 2 <= j < s.len() ==> (#[trigger] s[j]).run != s[0].run,
{
    lemma_block_end_bounds(s, s[0].run, 0);
    assert forall|j: int| 2 <= j < s.len() implies (#[trigger] s[j]).run != s[0].run by {
        if j > 2 && s[j].run == s[0].run {
            assert(group_le(s[0], s[2]));
            assert(group_le(s[2], s[j]));
            if s[2].run == s[j].run {
            } else {
                lemma_lex_le_antisym(s[0].run, s[2].run, 0);
                assert(s[0].run =~= s[2].run);
            }
        }
    }
}

/// When a sorted group sequence pairs up cleanly, every run-partition in
/// it has exactly two members: first the `baseline` one, then the `dev`
/// one. Read the other way round: a run-partition with one or with three
/// or more members never yields a calculation list, and neither does a
/// pair whose labels are not `baseline` and `dev`.
pub proof fn lemma_pairing_success_shape(s: Seq<GroupV>)
    requires
        groups_sorted(s),
        spec_pair_runs(s) is Pairs,
    ensures
        forall|g: GroupV| #[trigger] s.contains(g) ==> run_partition(s, g.run).len() == 2,
        forall|g: GroupV|
            #[trigger] s.contains(g) ==> run_partition(s, g.run)[0].version == "baseline"@,
        forall|g: GroupV| #[trigger] s.contains(g) ==> run_partition(s, g.run)[1].version == "dev"@,
    decreases s.len(),
{
    broadcast use vstd::seq_lib::group_filter_ensures;

    if s.len() > 0 {
        let k = block_end(s, s[0].run, 0);
        lemma_block_end_bounds(s, s[0].run, 0);
        assert(k == 2 && s.len() >= 2);
        lemma_first_block_isolated(s);
        let head = s.take(2);
        let rest = s.skip(2);
        assert(s =~= head + rest);
        assert(groups_sorted(rest)) by {
            assert forall|a: int, b: int| 0 <= a < b < rest.len() implies #[trigger] group_le(
                rest[a],
                rest[b],
            ) by {
                assert(group_le(s[a + 2], s[b + 2]));
            }
        }
        assert(spec_pair_runs(rest) is Pairs);
        lemma_pairing_success_shape(rest);
        assert forall|g: GroupV| #[trigger] s.contains(g) implies {
            &&& run_partition(s, g.run).len() == 2
            &&& run_partition(s, g.run)[0].version == "baseline"@
            &&& run_partition(s, g.run)[1].version == "dev"@
        } by {
            let pred = |h: GroupV| h.run == g.run;
            assert((head + rest).filter(pred) == head.filter(pred) + rest.filter(pred));
            assert(s.filter(pred) == head.filter(pred) + rest.filter(pred));
            let gi = choose|gi: int| 0 <= gi < s.len() && s[gi] == g;
            if g.run == s[0].run {
                assert(gi < 2);
                assert forall|i: int| 0 <= i < head.len() implies pred(#[trigger] head[i]) by {
                    assert(head[i] == s[i]);
                }
                lemma_filter_all(head, pred);
                assert forall|i: int| 0 <= i < rest.len() implies !pred(#[trigger] rest[i]) by {
                    assert(rest[i] == s[i + 2]);
                }
                lemma_filter_none(rest, pred);
                assert(run_partition(s, g.run) =~= head);
                assert(head[0] == s[0] && head[1] == s[1]);
            } else {
                assert(gi >= 2);
                assert(rest[gi - 2] == g);
                assert(rest.contains(g));
                assert forall|i: int| 0 <= i < head.len() implies !pred(#[trigger] head[i]) by {
                    assert(head[i] == s[i]);
                }
                lemma_filter_none(head, pred);
                assert(run_partition(s, g.run) =~= rest.filter(pred));
                assert(run_partition(rest, g.run) == rest.filter(pred));
            }
        }
    }
}

/// Every pairing error names real evidence: a bad-group-size error
/// carries an actual maximal run-partition and its observed member
/// count (never two), and a bad-branch-name error carries the two
/// version labels observed on an actual same-run pair, labels that are
/// not `baseline` followed by `dev`.
pub proof fn lemma_pairing_error_evidence(s: Seq<GroupV>)
    ensures
        spec_pair_runs(s) matches PairOutcomeV::BadGroupSize(k, gs) ==> {
            &&& k != 2
            &&& gs.len() == k
            &&& exists|i: int|
                #![trigger s.subrange(i, i + k)]
                {
                    &&& 0 <= i
                    &&& i + k <= s.len()
                    &&& gs =~= s.subrange(i, i + k)
                    &&& (forall|j: int| i <= j < i + k ==> (#[trigger] s[j]).run == s[i].run)
                    &&& (i + k < s.len() ==> s[i + k].run != s[i].run)
                }
        },
        spec_pair_runs(s) matches PairOutcomeV::BadBranchName(a, b) ==> exists|i: int|
            {
                &&& 0 <= i
                &&& i + 1 < s.len()
                &&& a == (#[trigger] s[i]).version
                &&& b == s[i + 1].version
                &&& s[i].run == s[i + 1].run
                &&& !(a == "baseline"@ && b == "dev"@)
            },
    decreases s.len(),
{
    if s.len() > 0 {
        let k = block_end(s, s[0].run, 0);
        lemma_block_end_bounds(s, s[0].run, 0);
        if k == 2 && s.len() >= 2 {
            if s[0].version == "baseline"@ && s[1].version == "dev"@ {
                let rest = s.skip(2);
                lemma_pairing_error_evidence(rest);
                match spec_pair_runs(rest) {
                    PairOutcomeV::Pairs(_) => {},
                    PairOutcomeV::BadGroupSize(k2, gs2) => {
                        let i2 = choose|i2: int|
                            #![trigger rest.subrange(i2, i2 + k2)]
                            {
                                &&& 0 <= i2
                                &&& i2 + k2 <= rest.len()
                                &&& gs2 =~= rest.subrange(i2, i2 + k2)
                                &&& (forall|j: int|
                                    i2 <= j < i2 + k2 ==> (#[trigger] rest[j]).run == rest[i2].run)
                                &&& (i2 + k2 < rest.len() ==> rest[i2 + k2].run != rest[i2].run)
                            };
                        assert(gs2 =~= s.subrange(i2 + 2, (i2 + 2) + k2)) by {
                            assert(rest.subrange(i2, i2 + k2) =~= s.subrange(
                                i2 + 2,
                                (i2 + 2) + k2,
                            ));
                        }
                        assert forall|j: int| i2 + 2 <= j < (i2 + 2) + k2 implies (
                        #[trigger] s[j]).run == s[i2 + 2].run by {
                            assert(rest[j - 2].run == rest[i2].run);
                        }
                        assert((i2 + 2) + k2 < s.len() ==> s[(i2 + 2) + k2].run != s[i2
                            + 2].run) by {
                            if (i2 + 2) + k2 < s.len() {
                                assert(rest[i2 + k2].run != rest[i2].run);
                            }
                        }
                        assert(exists|i: int|
                            #![trigger s.subrange(i, i + k2)]
                            {
                                &&& 0 <= i
                                &&& i + k2 <= s.len()
                                &&& gs2 =~= s.subrange(i, i + k2)
                                &&& (forall|j: int|
                                    i <= j < i + k2 ==> (#[trigger] s[j]).run == s[i].run)
                                &&& (i + k2 < s.len() ==> s[i + k2].run != s[i].run)
                            }) by {
                            assert(s.subrange(i2 + 2, (i2 + 2) + k2) == s.subrange(
                                i2 + 2,
                                (i2 + 2) + k2,
                            ));
                        }
                    },
                    PairOutcomeV::BadBranchName(a2, b2) => {
                        let i2 = choose|i2: int|
                            {
                                &&& 0 <= i2
                                &&& i2 + 1 < rest.len()
                                &&& a2 == (#[trigger] rest[i2]).version
                                &&& b2 == rest[i2 + 1].version
                                &&& rest[i2].run == rest[i2 + 1].run
                                &&& !(a2 == "baseline"@ && b2 == "dev"@)
                            };
                        assert({
                            let i: int = i2 + 2;
                            &&& 0 <= i
                            &&& i + 1 < s.len()
                            &&& a2 == s[i].version
                            &&& b2 == s[i + 1].version
                            &&& s[i].run == s[i + 1].run
                        }) by {
                            assert(rest[i2] == s[i2 + 2] && rest[i2 + 1] == s[i2 + 3]);
                        }
                    },
                }
            } else {
                assert({
                    let i: int = 0;
                    &&& 0 <= i
                    &&& i + 1 < s.len()
                    &&& s[0].version == (#[trigger] s[i]).version
                    &&& s[1].version == s[i + 1].version
                    &&& s[i].run == s[i + 1].run
                });
            }
        } else {
            assert(s.take(k) =~= s.subrange(0, 0 + k));
            assert(exists|i: int|
                #![trigger s.subrange(i, i + k)]
                {
                    &&& 0 <= i
                    &&& i + k <= s.len()
                    &&& s.take(k) =~= s.subrange(i, i + k)
                    &&& (forall|j: int| i <= j < i + k ==> (#[trigger] s[j]).run == s[i].run)
                    &&& (i + k < s.len() ==> s[i + k].run != s[i].run)
                }) by {
                assert(s.subrange(0, 0 + k) == s.subrange(0, 0 + k));
                assert(forall|j: int| 0 <= j < 0 + k ==> (#[trigger] s[j]).run == s[0].run);
                assert(0 + k < s.len() ==> s[0 + k].run != s[0].run);
            }
        }
    }
}

/// The comparison criterion, for one pair: the two records compare the
/// medians and the standard deviations of the two measurements against
/// their thresholds, and each flags a regression exactly when its
/// dev/baseline quotient exceeds its threshold — that is, when
/// `dev * threshold.den > baseline * threshold.num`.
pub proof fn lemma_pair_criterion(metric: Seq<char>, dev: MeasurementV, baseline: MeasurementV, ts: i64)
    ensures
        spec_calculation_pair(metric, dev, baseline, ts).len() == 2,
        spec_calculation_pair(metric, dev, baseline, ts)[0].regression == spec_exceeds(
            dev.median,
            baseline.median,
            spec_median_threshold(),
        ),
        spec_calculation_pair(metric, dev, baseline, ts)[1].regression == spec_exceeds(
            dev.stddev,
            baseline.stddev,
            spec_stddev_threshold(),
        ),
{
}

/// Every calculation a record carries is internally consistent: its
/// quotient is exactly the quotient of its own dev and baseline values.
pub open spec fn calc_criterion(c: CalcV) -> bool {
    &&& c.data.wf()
    &&& c.regression == spec_exceeds(c.data.dev, c.data.baseline, c.data.threshold)
}

proof fn lemma_calcs_of_pairs_criterion(ps: Seq<RunPairV>, ts: i64)
    ensures
        forall|i: int|
            0 <= i < calcs_of_pairs(ps, ts).len() ==> calc_criterion(
                #[trigger] calcs_of_pairs(ps, ts)[i],
            ),
    decreases ps.len(),
{
    if ps.len() > 0 {
        lemma_calcs_of_pairs_criterion(ps.drop_first(), ts);
        let head = spec_calculation_pair(ps[0].run, ps[0].dev, ps[0].baseline, ts);
        assert forall|i: int| 0 <= i < calcs_of_pairs(ps, ts).len() implies calc_criterion(
            #[trigger] calcs_of_pairs(ps, ts)[i],
        ) by {
            if i < head.len() {
                assert(calcs_of_pairs(ps, ts)[i] == head[i]);
            } else {
                assert(calcs_of_pairs(ps, ts)[i] == calcs_of_pairs(ps.drop_first(), ts)[i - 2]);
            }
        }
    }
}

/// Every calculation the pipeline returns reports a regression exactly
/// when the quotient of its own dev and baseline values exceeds its own
/// threshold.
pub proof fn lemma_regressions_criterion(files: Seq<FileV>, dir: Seq<char>, ts: i64)
    ensures
        spec_regressions(files, dir, ts) matches Result::Ok(cs) ==> forall|i: int|
            0 <= i < cs.len() ==> calc_criterion(#[trigger] cs[i]),
{
    if spec_regressions(files, dir, ts) is Ok {
        let n = files.len();
        let pms = Seq::new(
            n,
            |i: int| PathMeasV { path: files[i].path, measurement: files[i].results[0] },
        );
        let sorted = sort_spec(Seq::new(pms.len(), |i: int| spec_group_of(pms[i])));
        match spec_pair_runs(sorted) {
            PairOutcomeV::Pairs(ps) => {
                lemma_calcs_of_pairs_criterion(ps, ts);
            },
            PairOutcomeV::BadGroupSize(_, _) => {},
            PairOutcomeV::BadBranchName(_, _) => {},
        }
    }
}

/// The capture time stamped onto the calculations has no bearing on
/// correctness: whether the pipeline succeeds, and which error it
/// reports when it fails, are the same for every capture time.
pub proof fn lemma_capture_time_immaterial(files: Seq<FileV>, dir: Seq<char>, ts1: i64, ts2: i64)
    ensures
        spec_regressions(files, dir, ts1) is Ok <==> spec_regressions(files, dir, ts2) is Ok,
        spec_regressions(files, dir, ts1) matches Result::Err(e) ==> spec_regressions(
            files,
            dir,
            ts2,
        ) == Result::<Seq<CalcV>, _>::Err(e),
{
}

/// A file whose name does not properly name a run's measurement — no
/// file-name component, no underscore in the stem, or an empty run
/// identifier — always makes the pipeline fail: no calculation list is
/// ever produced from a list holding such a file.
pub proof fn lemma_malformed_name_rejected(files: Seq<FileV>, dir: Seq<char>, ts: i64, j: int)
    requires
        0 <= j < files.len(),
        !spec_path_names_run(files[j].path),
    ensures
        !(spec_regressions(files, dir, ts) is Ok),
{
    let n = files.len();
    if n > 0 && n % 2 != 1 && first_empty(files, 0) >= n {
        let pms = Seq::new(
            n,
            |i: int| PathMeasV { path: files[i].path, measurement: files[i].results[0] },
        );
        crate::calculate::lemma_first_misnamed_bounds(pms, 0);
        assert(pms[j].path == files[j].path);
        assert(first_misnamed(pms, 0) <= j);
    }
}

/// A directory with no qualifying files is always rejected as having no
/// results, whatever capture time is in play.
pub proof fn lemma_no_results_rejected(files: Seq<FileV>, dir: Seq<char>, ts: i64)
    requires
        files.len() == 0,
    ensures
        spec_regressions(files, dir, ts) == Result::<Seq<CalcV>, _>::Err(
            CalculateErrorV::NoResultsErr(dir),
        ),
{
}

/// A directory with an odd number of qualifying files is always rejected
/// with the observed count, never partially calculated.
pub proof fn lemma_odd_count_rejected(files: Seq<FileV>, dir: Seq<char>, ts: i64)
    requires
        files.len() % 2 == 1,
    ensures
        spec_regressions(files, dir, ts) == Result::<Seq<CalcV>, _>::Err(
            CalculateErrorV::OddResultsCountErr(files.len() as usize, dir),
        ),
{
}

} // verus!
