//! The data records of the detector: measurements as read from benchmark
//! output, the groups they are paired into, and the calculations that come
//! out of a comparison.
//!
//! Benchmark durations are held as unsigned integers in a fixed decimal
//! scale chosen by the caller (see [`TIME_SCALE`]); ratios of two such
//! values are kept exact as numerator/denominator pairs.

use vstd::prelude::*;

verus! {

/// Recommended number of integer units per second of measured time:
/// callers that convert wall-clock seconds into [`Measurement`] values
/// multiply by this scale (nanosecond resolution).
pub const TIME_SCALE: u64 = 1_000_000_000;

/// One benchmark sample summary, as produced for a single command by the
/// external timing tool. All durations are in the caller's fixed scale
/// (see [`TIME_SCALE`]); `times` holds the individual measured runs.
#[derive(Debug, PartialEq)]
pub struct Measurement {
    pub command: String,
    pub mean: u64,
    pub stddev: u64,
    pub median: u64,
    pub user: u64,
    pub system: u64,
    pub min: u64,
    pub max: u64,
    pub times: Vec<u64>,
}

/// Mathematical image of a [`Measurement`].
#[verifier::ext_equal]
pub ghost struct MeasurementV {
    pub command: Seq<char>,
    pub mean: u64,
    pub stddev: u64,
    pub median: u64,
    pub user: u64,
    pub system: u64,
    pub min: u64,
    pub max: u64,
    pub times: Seq<u64>,
}

impl DeepView for Measurement {
    type V = MeasurementV;

    open spec fn deep_view(&self) -> MeasurementV {
        MeasurementV {
            command: self.command@,
            mean: self.mean,
            stddev: self.stddev,
            median: self.median,
            user: self.user,
            system: self.system,
            min: self.min,
            max: self.max,
            times: self.times@,
        }
    }
}

impl Clone for Measurement {
    fn clone(&self) -> (r: Self)
        ensures
            r.deep_view() == self.deep_view(),
    {
        let mut times: Vec<u64> = Vec::new();
        let mut i: usize = 0;
        while i < self.times.len()
            invariant
                i <= self.times.len(),
                times@ == self.times@.subrange(0, i as int),
            decreases self.times.len() - i,
        {
            times.push(self.times[i]);
            proof {
                assert(times@ =~= self.times@.subrange(0, i + 1));
            }
            i = i + 1;
        }
        proof {
            assert(times@ =~= self.times@);
        }
        Measurement {
            command: self.command.clone(),
            mean: self.mean,
            stddev: self.stddev,
            median: self.median,
            user: self.user,
            system: self.system,
            min: self.min,
            max: self.max,
            times,
        }
    }
}

/// The deep view of a vector has one entry per element.
pub proof fn lemma_vec_deep_view_len<T: DeepView>(v: &Vec<T>)
    ensures
        v.deep_view().len() == v@.len(),
{
}

/// The deep view of a vector is the element-wise deep view.
pub proof fn lemma_vec_deep_view_index<T: DeepView>(v: &Vec<T>, i: int)
    requires
        0 <= i < v@.len(),
    ensures
        v.deep_view().len() == v@.len(),
        v.deep_view()[i] == v@[i].deep_view(),
{
}

/// The set of measurements held by one results file. The orchestrator
/// consumes only the first entry; an empty set is a structural error.
#[derive(Debug, PartialEq)]
pub struct Measurements {
    pub results: Vec<Measurement>,
}

impl DeepView for Measurements {
    type V = Seq<MeasurementV>;

    open spec fn deep_view(&self) -> Seq<MeasurementV> {
        self.results.deep_view()
    }
}

impl Clone for Measurements {
    fn clone(&self) -> (r: Self)
        ensures
            r.deep_view() == self.deep_view(),
    {
        let mut results: Vec<Measurement> = Vec::new();
        let mut i: usize = 0;
        while i < self.results.len()
            invariant
                i <= self.results.len(),
                results.deep_view() =~~= self.results.deep_view().take(i as int),
            decreases self.results.len() - i,
        {
            proof {
                lemma_vec_deep_view_index(&self.results, i as int);
            }
            let m = self.results[i].clone();
            let ghost vb = results@;
            let ghost dv_before = results.deep_view();
            proof {
                lemma_vec_deep_view_len(&results);
                assert forall|t: int| 0 <= t < vb.len() implies dv_before[t]
                    == vb[t].deep_view() by {
                    lemma_vec_deep_view_index(&results, t);
                }
            }
            results.push(m);
            proof {
                lemma_vec_deep_view_len(&results);
                assert forall|t: int| 0 <= t < results@.len() implies results.deep_view()[t]
                    == self.results.deep_view().take(i + 1)[t] by {
                    lemma_vec_deep_view_index(&results, t);
                    if t < vb.len() {
                        assert(results@[t] == vb[t]);
                    } else {
                        assert(results@[t] == m);
                    }
                }
                assert(results.deep_view() =~~= self.results.deep_view().take(i + 1));
            }
            i = i + 1;
        }
        proof {
            lemma_vec_deep_view_len(&self.results);
            assert(self.results.deep_view().take(self.results@.len() as int)
                =~= self.results.deep_view());
        }
        Measurements { results }
    }
}

/// A measurement tagged with the version label (`baseline` or `dev`) and
/// the run identifier that were encoded in its file name.
#[derive(Debug, PartialEq)]
pub struct MeasurementGroup {
    pub version: String,
    pub run: String,
    pub measurement: Measurement,
}

/// Mathematical image of a [`MeasurementGroup`].
#[verifier::ext_equal]
pub ghost struct GroupV {
    pub version: Seq<char>,
    pub run: Seq<char>,
    pub measurement: MeasurementV,
}

impl DeepView for MeasurementGroup {
    type V = GroupV;

    open spec fn deep_view(&self) -> GroupV {
        GroupV {
            version: self.version@,
            run: self.run@,
            measurement: self.measurement.deep_view(),
        }
    }
}

impl Clone for MeasurementGroup {
    fn clone(&self) -> (r: Self)
        ensures
            r.deep_view() == self.deep_view(),
    {
        MeasurementGroup {
            version: self.version.clone(),
            run: self.run.clone(),
            measurement: self.measurement.clone(),
        }
    }
}

/// A ratio of two machine integers, used for regression thresholds and
/// for the dev/baseline quotient of a comparison. A zero denominator
/// stands for the quotient of a zero baseline (infinite, or undefined
/// when the numerator is zero as well).
#[derive(Debug, Clone, Copy, PartialEq, Eq, Structural)]
pub struct Ratio {
    pub num: u64,
    pub den: u64,
}

/// The numeric evidence behind one comparison: the threshold it was held
/// against, the dev/baseline quotient, and the two raw values.
#[derive(Debug, Clone, Copy, PartialEq, Eq, Structural)]
pub struct Data {
    pub threshold: Ratio,
    pub difference: Ratio,
    pub baseline: u64,
    pub dev: u64,
}

impl Data {
    /// The `difference` field is exactly the quotient of the `dev` and
    /// `baseline` fields.
    pub open spec fn wf(self) -> bool {
        self.difference.num == self.dev && self.difference.den == self.baseline
    }
}

/// One metric-level regression verdict together with its evidence.
#[derive(Debug, PartialEq)]
pub struct Calculation {
    pub metric: String,
    pub regression: bool,
    pub ts: i64,
    pub data: Data,
}

/// Mathematical image of a [`Calculation`].
#[verifier::ext_equal]
pub ghost struct CalcV {
    pub metric: Seq<char>,
    pub regression: bool,
    pub ts: i64,
    pub data: Data,
}

impl DeepView for Calculation {
    type V = CalcV;

    open spec fn deep_view(&self) -> CalcV {
        CalcV {
            metric: self.metric@,
            regression: self.regression,
            ts: self.ts,
            data: self.data,
        }
    }
}

impl Clone for Calculation {
    fn clone(&self) -> (r: Self)
        ensures
            r.deep_view() == self.deep_view(),
    {
        Calculation {
            metric: self.metric.clone(),
            regression: self.regression,
            ts: self.ts,
            data: self.data,
        }
    }
}

} // verus!
