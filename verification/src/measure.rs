//! The decisions of the benchmark launcher: which command is measured
//! for each project, where its output file goes, and the exact argument
//! list handed to the external timing tool. Running the tool itself is
//! left to the caller.

use vstd::prelude::*;

verus! {

/// A command whose running time is measured on both branches.
#[derive(Debug, PartialEq)]
pub struct Metric {
    pub name: String,
    pub prepare: String,
    pub cmd: String,
}

/// Mathematical image of a [`Metric`].
#[verifier::ext_equal]
pub ghost struct MetricV {
    pub name: Seq<char>,
    pub prepare: Seq<char>,
    pub cmd: Seq<char>,
}

impl DeepView for Metric {
    type V = MetricV;

    open spec fn deep_view(&self) -> MetricV {
        MetricV { name: self.name@, prepare: self.prepare@, cmd: self.cmd@ }
    }
}

impl Clone for Metric {
    fn clone(&self) -> (r: Self)
        ensures
            r.deep_view() == self.deep_view(),
    {
        Metric { name: self.name.clone(), prepare: self.prepare.clone(), cmd: self.cmd.clone() }
    }
}

impl Metric {
    /// The file name for the timing tool's output for this metric:
    /// `<branch>_<name>_<project>.json`, the convention the grouper
    /// decodes again.
    pub fn outfile(&self, project: &str, branch: &str) -> (r: String)
        ensures
            r@ == branch@ + "_"@ + self.name@ + "_"@ + project@ + ".json"@,
    {
        let mut s = String::from_str(branch);
        s.append("_");
        s.append(self.name.as_str());
        s.append("_");
        s.append(project);
        s.append(".json");
        s
    }
}

/// The metrics measured for every project.
pub fn default_metrics() -> (r: Vec<Metric>)
    ensures
        r.deep_view() =~~= seq![
            MetricV {
                name: "parse"@,
                prepare: "rm -rf target/"@,
                cmd: "dbt parse --no-version-check"@,
            },
        ],
{
    let mut r: Vec<Metric> = Vec::new();
    r.push(
        Metric {
            name: String::from_str("parse"),
            prepare: String::from_str("rm -rf target/"),
            cmd: String::from_str("dbt parse --no-version-check"),
        },
    );
    r
}

/// The pairs measured for one project: one entry per metric.
pub open spec fn project_row(project: Seq<char>, metrics: Seq<MetricV>) -> Seq<
    (Seq<char>, MetricV),
> {
    Seq::new(metrics.len(), |m: int| (project, metrics[m]))
}

/// Every project paired with every metric, projects outermost.
pub open spec fn spec_project_metric_pairs(projects: Seq<Seq<char>>, metrics: Seq<MetricV>) -> Seq<
    (Seq<char>, MetricV),
>
    decreases projects.len(),
{
    if projects.len() == 0 {
        Seq::empty()
    } else {
        spec_project_metric_pairs(projects.drop_last(), metrics) + project_row(
            projects.last(),
            metrics,
        )
    }
}

/// Pairs every project with every metric.
pub fn project_metric_pairs(projects: &Vec<String>, metrics: &Vec<Metric>) -> (r: Vec<
    (String, Metric),
>)
    ensures
        r.deep_view() == spec_project_metric_pairs(projects.deep_view(), metrics.deep_view()),
{
    let ghost pv = projects.deep_view();
    let ghost mv = metrics.deep_view();
    let mut r: Vec<(String, Metric)> = Vec::new();
    let mut i: usize = 0;
    while i < projects.len()
        invariant
            i <= projects.len(),
            pv == projects.deep_view(),
            mv == metrics.deep_view(),
            r.deep_view() =~~= spec_project_metric_pairs(pv.take(i as int), mv),
        decreases projects.len() - i,
    {
        let mut j: usize = 0;
        while j < metrics.len()
            invariant
                i < projects.len(),
                j <= metrics.len(),
                pv == projects.deep_view(),
                mv == metrics.deep_view(),
                r.deep_view() =~~= spec_project_metric_pairs(pv.take(i as int), mv) + project_row(
                    pv[i as int],
                    mv,
                ).take(j as int),
            decreases metrics.len() - j,
        {
            proof {
                crate::records::lemma_vec_deep_view_index(projects, i as int);
                crate::records::lemma_vec_deep_view_index(metrics, j as int);
                crate::records::lemma_vec_deep_view_len(&r);
            }
            let project = projects[i].clone();
            let metric = metrics[j].clone();
            let ghost entry = (project, metric);
            let ghost vb = r@;
            let ghost dv_before = r.deep_view();
            proof {
                assert forall|t: int| 0 <= t < vb.len() implies dv_before[t]
                    == vb[t].deep_view() by {
                    crate::records::lemma_vec_deep_view_index(&r, t);
                }
            }
            r.push((project, metric));
            proof {
                let a = spec_project_metric_pairs(pv.take(i as int), mv);
                let row = project_row(pv[i as int], mv);
                assert(dv_before == a + row.take(j as int));
                assert(a.len() + j == vb.len());
                crate::records::lemma_vec_deep_view_len(&r);
                assert(r@ == vb.push(entry));
                assert forall|t: int| 0 <= t < r@.len() implies r.deep_view()[t] == (a + row.take(
                    j + 1,
                ))[t] by {
                    crate::records::lemma_vec_deep_view_index(&r, t);
                    if t < vb.len() {
                        assert(r@[t] == vb[t]);
                        assert(r.deep_view()[t] == vb[t].deep_view());
                        assert(vb[t].deep_view() == dv_before[t]);
                        if t < a.len() {
                            assert((a + row.take(j as int))[t] == a[t]);
                            assert((a + row.take(j + 1))[t] == a[t]);
                        } else {
                            assert((a + row.take(j as int))[t] == row.take(j as int)[t - a.len()]);
                            assert((a + row.take(j + 1))[t] == row.take(j + 1)[t - a.len()]);
                            assert(row.take(j as int)[t - a.len()] == row[t - a.len()]);
                            assert(row.take(j + 1)[t - a.len()] == row[t - a.len()]);
                        }
                    } else {
                        assert(t == vb.len());
                        assert(r@[t] == entry);
                        assert(r.deep_view()[t] == entry.deep_view());
                        assert(entry.deep_view() == (entry.0.deep_view(), entry.1.deep_view()));
                        assert(entry.0.deep_view() == entry.0@);
                        assert(entry.0@ == pv[i as int]);
                        assert(entry.1.deep_view() == mv[j as int]);
                        assert(row[j as int] == (pv[i as int], mv[j as int]));
                        assert(t - a.len() == j);
                        assert((a + row.take(j + 1))[t] == row.take(j + 1)[j as int]);
                        assert(row.take(j + 1)[j as int] == row[j as int]);
                    }
                }
                assert(r.deep_view() =~~= a + row.take(j + 1));
            }
            j = j + 1;
        }
        proof {
            assert(project_row(pv[i as int], mv).take(mv.len() as int) =~= project_row(
                pv[i as int],
                mv,
            ));
            assert(pv.take(i + 1).drop_last() =~= pv.take(i as int));
            assert(pv.take(i + 1).last() == pv[i as int]);
            assert(r.deep_view() =~~= spec_project_metric_pairs(pv.take(i + 1), mv));
        }
        i = i + 1;
    }
    proof {
        assert(pv.take(projects.len() as int) =~= pv);
    }
    r
}

/// The argument list handed to the external timing tool for one
/// project/metric pair: a warmup run, a floor on the number of measured
/// runs, the metric's prepare and measured commands, and the output file
/// placed in the shared results directory under the naming convention.
pub fn hyperfine_args(metric: &Metric, project: &str, branch: &str) -> (r: Vec<String>)
    ensures
        r.deep_view() =~~= seq![
            "--warmup"@,
            "1"@,
            "--min-runs"@,
            "20"@,
            "--prepare"@,
            metric.prepare@,
            metric.cmd@ + " --profiles-dir "@ + "../../project_config/"@,
            "--export-json"@,
            "../../results/"@ + branch@ + "_"@ + metric.name@ + "_"@ + project@ + ".json"@,
            "--show-output"@,
        ],
{
    let mut cmd_arg = String::from_str(metric.cmd.as_str());
    cmd_arg.append(" --profiles-dir ");
    cmd_arg.append("../../project_config/");
    let mut export_arg = String::from_str("../../results/");
    let out = metric.outfile(project, branch);
    export_arg.append(out.as_str());
    let mut r: Vec<String> = Vec::new();
    r.push(String::from_str("--warmup"));
    r.push(String::from_str("1"));
    r.push(String::from_str("--min-runs"));
    r.push(String::from_str("20"));
    r.push(String::from_str("--prepare"));
    r.push(String::from_str(metric.prepare.as_str()));
    r.push(cmd_arg);
    r.push(String::from_str("--export-json"));
    r.push(export_arg);
    r.push(String::from_str("--show-output"));
    proof {
        crate::records::lemma_vec_deep_view_len(&r);
        assert forall|t: int| 0 <= t < r@.len() implies r.deep_view()[t]
            == r@[t].deep_view() by {
            crate::records::lemma_vec_deep_view_index(&r, t);
        }
    }
    r
}

} // verus!
