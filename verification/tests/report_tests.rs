// Tests for the report synthesizer and the chart parameters.
use datastory::chart::{boxplot_summary, histogram_bins};
use datastory::correlate::correlation_edges;
use datastory::diagnose::NumCell;
use datastory::fixed::Fx;
use datastory::html::html_of_sections;
use datastory::report::{ReportSection, build_report};
use datastory::text::fixed2_string;

fn cells(vals: &[i64]) -> Vec<NumCell> {
    vals.iter().map(|&v| NumCell::Value(Fx::from_units(v))).collect()
}

fn strings(vals: &[&str]) -> Vec<String> {
    vals.iter().map(|s| s.to_string()).collect()
}

fn assert_sections_equal(a: &[ReportSection], b: &[ReportSection]) {
    assert_eq!(a.len(), b.len());
    for (x, y) in a.iter().zip(b.iter()) {
        assert_eq!(x.title, y.title);
        assert_eq!(x.facts, y.facts);
        assert_eq!(x.narrative, y.narrative);
        assert_eq!(x.chart_refs, y.chart_refs);
    }
}

#[test]
fn test_report_end_to_end() {
    // One numeric column and one categorical column, as the splitting
    // boundary would route them.
    let num = vec![cells(&[1, 2, 3, 100]), Vec::new()];
    let cat = vec![Vec::new(), strings(&["x", "y", "x", "z"])];
    let headers = strings(&["height", "name"]);
    let corr: Vec<String> = Vec::new();
    let sections = build_report(&num, &cat, &headers, &corr);

    // Only one numeric column holds data, so no correlation section.
    assert_eq!(sections.len(), 2);

    let h = &sections[0];
    assert_eq!(h.title, "Column 'height'");
    assert_eq!(h.facts[0], "Type: numeric");
    assert_eq!(h.facts[1], "Min: 1.00");
    assert_eq!(h.facts[2], "Max: 100.00");
    assert_eq!(h.facts[3], "Mean: 26.50");
    assert_eq!(h.facts[4], "Median: 2.50");
    // Nearest-rank quartiles of four values take the second and the
    // last: q1 = 2, q3 = 100, so the fences swallow everything.
    assert_eq!(h.facts[5], "Q1: 2.00, Q3: 100.00, IQR: 98.00");
    assert_eq!(h.facts[6], "Outliers detected: 0");
    assert_eq!(
        h.narrative,
        "Column 'height' has a mean value of 26.50, ranging from 1.00 to 100.00. \
         The median is 2.50. No extreme values detected."
    );
    assert_eq!(h.chart_refs, vec!["assets/hist_0.png".to_string(), "assets/boxplot_0.png".to_string()]);

    let n = &sections[1];
    assert_eq!(n.title, "Column 'name'");
    assert_eq!(n.facts[0], "Type: categorical");
    assert_eq!(n.facts[1], "Unique values: 3");
    assert_eq!(n.facts[2], "Mode: 'x' (2 occurrences)");
    assert_eq!(
        n.narrative,
        "Column 'name' contains 3 unique values. The most frequent value is 'x' (2 times)."
    );
    assert_eq!(n.chart_refs, vec!["assets/bar_1.png".to_string()]);
}

#[test]
fn test_report_outlier_narrative() {
    // [1, 2, 3, 4, 5, 100] keeps 100 outside the fences.
    let num = vec![cells(&[1, 2, 3, 4, 5, 100])];
    let cat: Vec<Vec<String>> = vec![Vec::new()];
    let headers = strings(&["v"]);
    let corr: Vec<String> = Vec::new();
    let sections = build_report(&num, &cat, &headers, &corr);
    assert_eq!(sections.len(), 1);
    assert_eq!(sections[0].facts[6], "Outliers detected: 1");
    assert!(sections[0].narrative.ends_with(
        "Extreme values were detected, which may indicate anomalies or data entry errors."
    ));
}

#[test]
fn test_report_correlation_section_comes_first() {
    let num = vec![cells(&[1, 2, 3]), cells(&[2, 4, 6])];
    let cat: Vec<Vec<String>> = vec![Vec::new(), Vec::new()];
    let headers = strings(&["a", "b"]);
    let corr = strings(&["Pearson correlation between 'a' and 'b': 1.000"]);
    let sections = build_report(&num, &cat, &headers, &corr);
    assert_eq!(sections.len(), 3);
    assert_eq!(sections[0].title, "Correlation analysis");
    assert_eq!(sections[0].facts, vec![
        "Pearson correlation between 'a' and 'b': 1.000".to_string()
    ]);
    assert_eq!(sections[1].title, "Column 'a'");
    assert_eq!(sections[2].title, "Column 'b'");
}

#[test]
fn test_report_idempotent() {
    let num = vec![cells(&[1, 2, 3, 100]), cells(&[4, 5, 6])];
    let cat = vec![strings(&["x", "y"]), Vec::new()];
    let headers = strings(&["p", "q"]);
    let corr = strings(&["Pearson correlation between 'p' and 'q': 0.500"]);
    let once = build_report(&num, &cat, &headers, &corr);
    let twice = build_report(&num, &cat, &headers, &corr);
    assert_sections_equal(&once, &twice);
}

#[test]
fn test_correlation_edges_pairs() {
    let num = vec![
        cells(&[1, 2, 3]),
        Vec::new(),
        cells(&[2, 4, 6]),
        cells(&[5, 5, 5]),
    ];
    let edges = correlation_edges(&num);
    // Only the pair (0, 2) has a coefficient: column 1 is empty and
    // column 3 has zero variance.
    assert_eq!(edges.len(), 1);
    assert_eq!(edges[0].column_a_index, 0);
    assert_eq!(edges[0].column_b_index, 2);
    let p = edges[0].parts;
    let corr = p.numerator as f64 / ((p.den_x as f64) * (p.den_y as f64)).sqrt();
    assert!((corr - 1.0).abs() < 1e-6);
}

#[test]
fn test_histogram_bins_clamp_and_span() {
    let p = vec![Fx::from_units(0), Fx::from_units(1), Fx::new(500)];
    let bins = histogram_bins(&p);
    assert_eq!(bins.len(), 20);
    assert_eq!(bins[0], 1);
    // Half way through [0, 1] falls in bin ten; the top lands in the
    // last bin instead of running off the end.
    assert_eq!(bins[10], 1);
    assert_eq!(bins[19], 1);
    assert_eq!(bins.iter().sum::<usize>(), 3);
}

#[test]
fn test_histogram_bins_constant_column() {
    let p = vec![Fx::from_units(7), Fx::from_units(7)];
    let bins = histogram_bins(&p);
    assert_eq!(bins[0], 2);
    assert_eq!(bins.iter().sum::<usize>(), 2);
}

#[test]
fn test_boxplot_summary_five_numbers() {
    let p = vec![
        Fx::from_units(1),
        Fx::from_units(2),
        Fx::from_units(3),
        Fx::from_units(4),
        Fx::from_units(5),
    ];
    let s = boxplot_summary(&p);
    assert_eq!(s.min, Fx::from_units(1));
    assert_eq!(s.q1, Fx::from_units(2));
    assert_eq!(s.median, Fx::from_units(3));
    assert_eq!(s.q3, Fx::from_units(4));
    assert_eq!(s.max, Fx::from_units(5));
    // Fences at -1 and 7 leave every value inside.
    assert_eq!(s.lower_whisker, Fx::from_units(1));
    assert_eq!(s.upper_whisker, Fx::from_units(5));
}

#[test]
fn test_fixed2_string_rounding() {
    assert_eq!(fixed2_string(2500), "2.50");
    assert_eq!(fixed2_string(-2500), "-2.50");
    assert_eq!(fixed2_string(1333), "1.33");
    assert_eq!(fixed2_string(1335), "1.34");
    assert_eq!(fixed2_string(0), "0.00");
    assert_eq!(fixed2_string(-5), "-0.01");
    assert_eq!(fixed2_string(-4), "-0.00");
}

#[test]
fn test_html_serialization() {
    let num = vec![cells(&[1, 2, 3])];
    let cat = vec![strings(&["x", "y"])];
    // A single column feeds both tracks here only to exercise the
    // serializer; the splitting boundary would never do this.
    let headers = strings(&["a"]);
    let corr: Vec<String> = Vec::new();
    let sections = build_report(&num, &cat, &headers, &corr);
    let html = html_of_sections("test.csv", &sections);
    assert!(html.starts_with(
        "<html><head><title>Data Storytelling Report</title></head><body>\n\
         <h1>Data Storytelling Report</h1><h2>File: test.csv</h2>"
    ));
    assert!(html.ends_with("</body></html>"));
    assert!(html.contains("<h2>Column 'a'</h2>"));
    assert!(html.contains("<li>Type: numeric</li>"));
    assert!(html.contains("<p>Narrative: Column 'a' contains 2 unique values."));
    assert!(html.contains("<img src='assets/hist_0.png' alt='Column 'a''/><br/>"));
    // Two runs give byte-identical documents.
    let again = html_of_sections("test.csv", &build_report(&num, &cat, &headers, &corr));
    assert_eq!(html, again);
}
