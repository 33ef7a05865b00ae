use vstd::prelude::*;
use vstd::string::StringExecFns;

use crate::classify::ColumnKind;
use crate::classify::detect_column_type;
use crate::classify::spec_classify;
use crate::diagnose::{NumCell, cells_wf, diagnose, outliers_of, present_of, present_values};
use crate::fixed::Fx;
use crate::stats::{count_of, mean, median, q1_index, q3_index, quartiles, sorted_of, views};
use crate::stats::{mode, sort_fx, spec_mode, sum_raw, unique_count, value_count};
use crate::stats::div_towards_zero;
use crate::stats::median_raw;
use crate::text::{dec_digits, fixed2_digits, fixed2_string, usize_string};

verus! {

/// One narrative unit of the report: a titled block of facts, a prose
/// summary, and the identifiers of the charts it asks the renderer for.
pub struct ReportSection {
    pub title: String,
    pub facts: Vec<String>,
    pub narrative: String,
    pub chart_refs: Vec<String>,
}

/// The text of a section, as plain character sequences.
pub struct SectionModel {
    pub title: Seq<char>,
    pub facts: Seq<Seq<char>>,
    pub narrative: Seq<char>,
    pub chart_refs: Seq<Seq<char>>,
}

/// What a section says.
pub open spec fn section_model(s: ReportSection) -> SectionModel {
    SectionModel {
        title: s.title@,
        facts: views(s.facts@),
        narrative: s.narrative@,
        chart_refs: views(s.chart_refs@),
    }
}

/// What each section of a list says.
pub open spec fn models(s: Seq<ReportSection>) -> Seq<SectionModel> {
    s.map_values(|x: ReportSection| section_model(x))
}

/// The names a column kind goes by in the report.
pub open spec fn kind_chars(k: ColumnKind) -> Seq<char> {
    match k {
        ColumnKind::Numeric => "numeric"@,
        ColumnKind::Categorical => "categorical"@,
        ColumnKind::Boolean => "boolean"@,
        ColumnKind::Date => "date"@,
    }
}

impl ColumnKind {
    /// The name the kind goes by in the report.
    pub fn as_str(self) -> (r: &'static str)
        ensures
            r@ == kind_chars(self),
    {
        proof {
            reveal_strlit("numeric");
            reveal_strlit("categorical");
            reveal_strlit("boolean");
            reveal_strlit("date");
        }
        match self {
            ColumnKind::Numeric => "numeric",
            ColumnKind::Categorical => "categorical",
            ColumnKind::Boolean => "boolean",
            ColumnKind::Date => "date",
        }
    }
}

/// The section of one numeric column: its descriptive statistics as fact
/// lines, one summarising sentence, and a histogram and a boxplot
/// request.
pub open spec fn numeric_section_spec(col: Seq<NumCell>, h: Seq<char>, idx: int) -> SectionModel {
    let p = present_values(col);
    let t = sorted_of(p);
    let n = p.len() as int;
    let minr = t[0].raw as int;
    let maxr = t[n - 1].raw as int;
    let meanr = div_towards_zero(sum_raw(p), n);
    let medr = median_raw(p);
    let q1 = t[q1_index(n)];
    let q3 = t[q3_index(n)];
    let iqr = q3.raw - q1.raw;
    let oc = outliers_of(p, q1, q3).len() as int;
    SectionModel {
        title: "Column '"@ + h + "'"@,
        facts: seq![
            "Type: numeric"@,
            "Min: "@ + fixed2_digits(minr),
            "Max: "@ + fixed2_digits(maxr),
            "Mean: "@ + fixed2_digits(meanr),
            "Median: "@ + fixed2_digits(medr),
            "Q1: "@ + fixed2_digits(q1.raw as int) + ", Q3: "@ + fixed2_digits(q3.raw as int)
                + ", IQR: "@ + fixed2_digits(iqr as int),
            "Outliers detected: "@ + dec_digits(oc as nat),
        ],
        narrative: "Column '"@ + h + "' has a mean value of "@ + fixed2_digits(meanr)
            + ", ranging from "@ + fixed2_digits(minr) + " to "@ + fixed2_digits(maxr)
            + ". The median is "@ + fixed2_digits(medr) + ". "@ + (if oc == 0 {
            "No extreme values detected."@
        } else {
            "Extreme values were detected, which may indicate anomalies or data entry errors."@
        }),
        chart_refs: seq![
            "assets/hist_"@ + dec_digits(idx as nat) + ".png"@,
            "assets/boxplot_"@ + dec_digits(idx as nat) + ".png"@,
        ],
    }
}

/// The section of one categorical column: its kind, the count of
/// distinct values, the mode with its frequency, one sentence, and a bar
/// chart request.
pub open spec fn categorical_section_spec(vs: Seq<Seq<char>>, h: Seq<char>, idx: int) -> SectionModel {
    let u = vs.to_set().len() as int;
    let m = spec_mode(vs);
    let f = count_of(vs, m);
    SectionModel {
        title: "Column '"@ + h + "'"@,
        facts: seq![
            "Type: "@ + kind_chars(spec_classify(vs)),
            "Unique values: "@ + dec_digits(u as nat),
            "Mode: '"@ + m + "' ("@ + dec_digits(f as nat) + " occurrences)"@,
        ],
        narrative: "Column '"@ + h + "' contains "@ + dec_digits(u as nat)
            + " unique values. The most frequent value is '"@ + m + "' ("@ + dec_digits(f as nat)
            + " times)."@,
        chart_refs: seq!["assets/bar_"@ + dec_digits(idx as nat) + ".png"@],
    }
}

/// The correlation section: the fact lines the caller formatted from the
/// correlation ingredients, under a fixed title.
pub open spec fn correlation_section_spec(cf: Seq<Seq<char>>) -> SectionModel {
    SectionModel {
        title: "Correlation analysis"@,
        facts: cf,
        narrative: Seq::empty(),
        chart_refs: Seq::empty(),
    }
}

/// How many of the first `n` numeric columns hold at least one present
/// amount.
pub open spec fn nonempty_numeric_count(nums: Seq<Seq<NumCell>>, n: int) -> int
    decreases n,
{
    if n <= 0 {
        0
    } else {
        nonempty_numeric_count(nums, n - 1) + if present_values(nums[n - 1]).len() > 0 {
            1int
        } else {
            0int
        }
    }
}

/// The numeric sections of the first `n` columns, in column order,
/// skipping columns without present amounts.
pub open spec fn numeric_sections_upto(nums: Seq<Seq<NumCell>>, hs: Seq<Seq<char>>, n: int) -> Seq<
    SectionModel,
>
    decreases n,
{
    if n <= 0 {
        Seq::empty()
    } else {
        numeric_sections_upto(nums, hs, n - 1) + if present_values(nums[n - 1]).len() > 0 {
            seq![numeric_section_spec(nums[n - 1], hs[n - 1], n - 1)]
        } else {
            Seq::<SectionModel>::empty()
        }
    }
}

/// The categorical sections of the first `n` columns, in column order,
/// skipping empty columns.
pub open spec fn categorical_sections_upto(
    cats: Seq<Seq<Seq<char>>>,
    hs: Seq<Seq<char>>,
    n: int,
) -> Seq<SectionModel>
    decreases n,
{
    if n <= 0 {
        Seq::empty()
    } else {
        categorical_sections_upto(cats, hs, n - 1) + if cats[n - 1].len() > 0 {
            seq![categorical_section_spec(cats[n - 1], hs[n - 1], n - 1)]
        } else {
            Seq::<SectionModel>::empty()
        }
    }
}

/// The views of the numeric columns.
pub open spec fn num_views(nums: Seq<Vec<NumCell>>) -> Seq<Seq<NumCell>> {
    nums.map_values(|v: Vec<NumCell>| v@)
}

/// The views of the categorical columns.
pub open spec fn cat_views(cats: Seq<Vec<String>>) -> Seq<Seq<Seq<char>>> {
    cats.map_values(|v: Vec<String>| views(v@))
}

/// The whole report: the correlation section first when at least two
/// numeric columns hold data, then one section per numeric column with
/// data, then one per non-empty categorical column, both in column
/// order.
pub open spec fn spec_report(
    nums: Seq<Seq<NumCell>>,
    cats: Seq<Seq<Seq<char>>>,
    hs: Seq<Seq<char>>,
    cf: Seq<Seq<char>>,
) -> Seq<SectionModel> {
    (if nonempty_numeric_count(nums, nums.len() as int) >= 2 {
        seq![correlation_section_spec(cf)]
    } else {
        Seq::<SectionModel>::empty()
    }) + numeric_sections_upto(nums, hs, nums.len() as int) + categorical_sections_upto(
        cats,
        hs,
        cats.len() as int,
    )
}

/// Law: the synthesizer is deterministic.  Whatever two runs over the
/// same columns, headers and correlation facts returned, they say
/// exactly the same thing, section for section and character for
/// character — the report carries no timestamp, counter or other state.
pub proof fn lemma_synthesizer_deterministic(
    r1: Seq<ReportSection>,
    r2: Seq<ReportSection>,
    nums: Seq<Seq<NumCell>>,
    cats: Seq<Seq<Seq<char>>>,
    hs: Seq<Seq<char>>,
    cf: Seq<Seq<char>>,
)
    requires
        models(r1) == spec_report(nums, cats, hs, cf),
        models(r2) == spec_report(nums, cats, hs, cf),
    ensures
        models(r1) == models(r2),
{
}

/// Whether the column holds at least one present amount.
fn has_present(col: &Vec<NumCell>) -> (b: bool)
    requires
        cells_wf(col@),
    ensures
        b == (present_values(col@).len() > 0),
{
    let p = present_of(col);
    p.len() > 0
}

/// Builds the section of one numeric column, or nothing when the column
/// holds no present amount.
fn numeric_section(col: &Vec<NumCell>, h: &String, idx: usize) -> (r: Option<ReportSection>)
    requires
        cells_wf(col@),
    ensures
        r is Some <==> present_values(col@).len() > 0,
        (r matches Some(s) ==> section_model(s) == numeric_section_spec(col@, h@, idx as int)),
{
    let p = present_of(col);
    if p.len() == 0 {
        return None;
    }
    let sorted = sort_fx(&p);
    proof {
        crate::stats::lemma_sorted_of_ensures(p@);
    }
    let n = sorted.len();
    let minv = sorted[0];
    let maxv = sorted[n - 1];
    let meanv = match mean(&p) {
        Some(v) => v,
        None => {
            proof {
                assert(false);
            }
            Fx { raw: 0 }
        },
    };
    let medv = match median(&p) {
        Some(v) => v,
        None => {
            proof {
                assert(false);
            }
            Fx { raw: 0 }
        },
    };
    let (q1, q3) = match quartiles(&p) {
        Some(q) => q,
        None => {
            proof {
                assert(false);
            }
            (Fx { raw: 0 }, Fx { raw: 0 })
        },
    };
    let iqr = q3.raw - q1.raw;
    let diag = diagnose(col);
    proof {
        assert(crate::diagnose::spec_q1(col@) == q1);
        assert(crate::diagnose::spec_q3(col@) == q3);
    }
    let oc = diag.outlier_count;

    let mut title = "Column '".to_owned();
    title.append(h.as_str());
    title.append("'");

    let mut facts: Vec<String> = Vec::new();
    facts.push("Type: numeric".to_owned());
    let mut f_min = "Min: ".to_owned();
    f_min.append(fixed2_string(minv.raw).as_str());
    facts.push(f_min);
    let mut f_max = "Max: ".to_owned();
    f_max.append(fixed2_string(maxv.raw).as_str());
    facts.push(f_max);
    let mut f_mean = "Mean: ".to_owned();
    f_mean.append(fixed2_string(meanv.raw).as_str());
    facts.push(f_mean);
    let mut f_med = "Median: ".to_owned();
    f_med.append(fixed2_string(medv.raw).as_str());
    facts.push(f_med);
    let mut f_q = "Q1: ".to_owned();
    f_q.append(fixed2_string(q1.raw).as_str());
    f_q.append(", Q3: ");
    f_q.append(fixed2_string(q3.raw).as_str());
    f_q.append(", IQR: ");
    f_q.append(fixed2_string(iqr).as_str());
    facts.push(f_q);
    let mut f_o = "Outliers detected: ".to_owned();
    f_o.append(usize_string(oc).as_str());
    facts.push(f_o);

    let mut narrative = "Column '".to_owned();
    narrative.append(h.as_str());
    narrative.append("' has a mean value of ");
    narrative.append(fixed2_string(meanv.raw).as_str());
    narrative.append(", ranging from ");
    narrative.append(fixed2_string(minv.raw).as_str());
    narrative.append(" to ");
    narrative.append(fixed2_string(maxv.raw).as_str());
    narrative.append(". The median is ");
    narrative.append(fixed2_string(medv.raw).as_str());
    narrative.append(". ");
    if oc == 0 {
        narrative.append("No extreme values detected.");
    } else {
        narrative.append(
            "Extreme values were detected, which may indicate anomalies or data entry errors.",
        );
    }

    let mut charts: Vec<String> = Vec::new();
    let mut hist = "assets/hist_".to_owned();
    hist.append(usize_string(idx).as_str());
    hist.append(".png");
    charts.push(hist);
    let mut boxp = "assets/boxplot_".to_owned();
    boxp.append(usize_string(idx).as_str());
    boxp.append(".png");
    charts.push(boxp);

    let s = ReportSection { title, facts, narrative, chart_refs: charts };
    proof {
        let m = numeric_section_spec(col@, h@, idx as int);
        assert(section_model(s).title =~= m.title);
        assert(section_model(s).facts =~= m.facts);
        assert(section_model(s).narrative =~= m.narrative);
        assert(section_model(s).chart_refs =~= m.chart_refs);
        assert(section_model(s) == m);
    }
    Some(s)
}

/// Builds the section of one categorical column, or nothing when the
/// column is empty.
fn categorical_section(col: &Vec<String>, h: &String, idx: usize) -> (r: Option<ReportSection>)
    ensures
        r is Some <==> col@.len() > 0,
        (r matches Some(s) ==> section_model(s) == categorical_section_spec(
            views(col@),
            h@,
            idx as int,
        )),
{
    if col.len() == 0 {
        return None;
    }
    let kind = detect_column_type(col);
    let u = unique_count(col);
    let m = mode(col);
    let f = value_count(col, &m);

    let mut title = "Column '".to_owned();
    title.append(h.as_str());
    title.append("'");

    let mut facts: Vec<String> = Vec::new();
    let mut f_ty = "Type: ".to_owned();
    f_ty.append(kind.as_str());
    facts.push(f_ty);
    let mut f_u = "Unique values: ".to_owned();
    f_u.append(usize_string(u).as_str());
    facts.push(f_u);
    let mut f_m = "Mode: '".to_owned();
    f_m.append(m.as_str());
    f_m.append("' (");
    f_m.append(usize_string(f).as_str());
    f_m.append(" occurrences)");
    facts.push(f_m);

    let mut narrative = "Column '".to_owned();
    narrative.append(h.as_str());
    narrative.append("' contains ");
    narrative.append(usize_string(u).as_str());
    narrative.append(" unique values. The most frequent value is '");
    narrative.append(m.as_str());
    narrative.append("' (");
    narrative.append(usize_string(f).as_str());
    narrative.append(" times).");

    let mut charts: Vec<String> = Vec::new();
    let mut bar = "assets/bar_".to_owned();
    bar.append(usize_string(idx).as_str());
    bar.append(".png");
    charts.push(bar);

    let s = ReportSection { title, facts, narrative, chart_refs: charts };
    proof {
        let mm = categorical_section_spec(views(col@), h@, idx as int);
        assert(section_model(s).title =~= mm.title);
        assert(section_model(s).facts =~= mm.facts);
        assert(section_model(s).narrative =~= mm.narrative);
        assert(section_model(s).chart_refs =~= mm.chart_refs);
        assert(section_model(s) == mm);
    }
    Some(s)
}

/// Assembles the whole report from the split columns, their headers, and
/// the correlation fact lines the caller formatted: the correlation
/// section first when at least two numeric columns hold data, then the
/// numeric sections, then the categorical ones, in column order.
/// Running it twice over the same inputs gives the same sections.
pub fn build_report(
    num: &Vec<Vec<NumCell>>,
    cat: &Vec<Vec<String>>,
    headers: &Vec<String>,
    corr_facts: &Vec<String>,
) -> (r: Vec<ReportSection>)
    requires
        num@.len() == headers@.len(),
        cat@.len() == headers@.len(),
        forall|i: int| 0 <= i < num@.len() ==> cells_wf(#[trigger] num@[i]@),
    ensures
        models(r@) == spec_report(num_views(num@), cat_views(cat@), views(headers@), views(
            corr_facts@,
        )),
{
    let ghost gn = num_views(num@);
    let ghost gc = cat_views(cat@);
    let ghost gh = views(headers@);
    let mut sections: Vec<ReportSection> = Vec::new();

    let mut nonempty: usize = 0;
    let mut i: usize = 0;
    while i < num.len()
        invariant
            i <= num@.len(),
            gn == num_views(num@),
            forall|k: int| 0 <= k < num@.len() ==> cells_wf(#[trigger] num@[k]@),
            nonempty <= i,
            nonempty == nonempty_numeric_count(gn, i as int),
        decreases num@.len() - i,
    {
        proof {
            assert(gn[i as int] == num@[i as int]@);
            assert(cells_wf(num@[i as int]@));
        }
        if has_present(&num[i]) {
            nonempty = nonempty + 1;
        }
        i = i + 1;
    }
    if nonempty >= 2 {
        let mut cf: Vec<String> = Vec::new();
        let mut k: usize = 0;
        while k < corr_facts.len()
            invariant
                k <= corr_facts@.len(),
                views(cf@) =~= views(corr_facts@).take(k as int),
            decreases corr_facts@.len() - k,
        {
            let c = corr_facts[k].clone();
            proof {
                assert(views(cf@.push(c)) =~= views(cf@).push(c@));
                assert(views(corr_facts@).take(k as int + 1) =~= views(corr_facts@).take(
                    k as int,
                ).push(views(corr_facts@)[k as int]));
                assert(c@ == corr_facts@[k as int]@);
            }
            cf.push(c);
            k = k + 1;
        }
        proof {
            assert(views(corr_facts@).take(corr_facts@.len() as int) =~= views(corr_facts@));
        }
        let corr = ReportSection {
            title: "Correlation analysis".to_owned(),
            facts: cf,
            narrative: String::new(),
            chart_refs: Vec::new(),
        };
        proof {
            let mm = correlation_section_spec(views(corr_facts@));
            assert(views(corr.chart_refs@) =~= Seq::<Seq<char>>::empty());
            assert(section_model(corr) == mm);
        }
        sections.push(corr);
    }
    let ghost head = models(sections@);
    proof {
        assert(head =~= (if nonempty_numeric_count(gn, gn.len() as int) >= 2 {
            seq![correlation_section_spec(views(corr_facts@))]
        } else {
            Seq::<SectionModel>::empty()
        }));
    }

    let mut i: usize = 0;
    while i < num.len()
        invariant
            i <= num@.len() == headers@.len(),
            gn == num_views(num@),
            gh == views(headers@),
            forall|k: int| 0 <= k < num@.len() ==> cells_wf(#[trigger] num@[k]@),
            models(sections@) == head + numeric_sections_upto(gn, gh, i as int),
        decreases num@.len() - i,
    {
        proof {
            assert(gn[i as int] == num@[i as int]@);
            assert(gh[i as int] == headers@[i as int]@);
        }
        match numeric_section(&num[i], &headers[i], i) {
            Some(s) => {
                proof {
                    assert(models(sections@.push(s)) =~= models(sections@).push(section_model(s)));
                    assert(head + numeric_sections_upto(gn, gh, i as int + 1) =~= (head
                        + numeric_sections_upto(gn, gh, i as int)).push(
                        numeric_section_spec(gn[i as int], gh[i as int], i as int),
                    ));
                }
                sections.push(s);
            },
            None => {
                proof {
                    assert(head + numeric_sections_upto(gn, gh, i as int + 1) =~= head
                        + numeric_sections_upto(gn, gh, i as int));
                }
            },
        }
        i = i + 1;
    }
    let ghost mid = models(sections@);

    let mut j: usize = 0;
    while j < cat.len()
        invariant
            j <= cat@.len() == headers@.len(),
            gc == cat_views(cat@),
            gh == views(headers@),
            mid == head + numeric_sections_upto(gn, gh, gn.len() as int),
            models(sections@) == mid + categorical_sections_upto(gc, gh, j as int),
        decreases cat@.len() - j,
    {
        proof {
            assert(gc[j as int] == views(cat@[j as int]@));
            assert(gh[j as int] == headers@[j as int]@);
        }
        match categorical_section(&cat[j], &headers[j], j) {
            Some(s) => {
                proof {
                    assert(cat@[j as int]@.len() > 0 ==> gc[j as int].len() > 0);
                    assert(models(sections@.push(s)) =~= models(sections@).push(section_model(s)));
                    assert(mid + categorical_sections_upto(gc, gh, j as int + 1) =~= (mid
                        + categorical_sections_upto(gc, gh, j as int)).push(
                        categorical_section_spec(gc[j as int], gh[j as int], j as int),
                    ));
                }
                sections.push(s);
            },
            None => {
                proof {
                    assert(gc[j as int].len() == 0);
                    assert(mid + categorical_sections_upto(gc, gh, j as int + 1) =~= mid
                        + categorical_sections_upto(gc, gh, j as int));
                }
            },
        }
        j = j + 1;
    }
    proof {
        assert(models(sections@) =~= spec_report(gn, gc, gh, views(corr_facts@)));
    }
    sections
}

} // verus!
