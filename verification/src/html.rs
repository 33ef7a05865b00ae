use vstd::prelude::*;
use vstd::string::StringExecFns;

use crate::report::ReportSection;
use crate::report::SectionModel;
use crate::report::section_model;

verus! {

/// The opening of the document, naming the source file.
pub open spec fn html_header(path: Seq<char>) -> Seq<char> {
    "<html><head><title>Data Storytelling Report</title></head><body>\n<h1>Data Storytelling Report</h1><h2>File: "@
        + path + "</h2>"@
}

/// The first `n` fact lines as list items.
pub open spec fn facts_html(fs: Seq<Seq<char>>, n: int) -> Seq<char>
    decreases n,
{
    if n <= 0 {
        Seq::empty()
    } else {
        facts_html(fs, n - 1) + "<li>"@ + fs[n - 1] + "</li>"@
    }
}

/// The first `n` chart references as images.
pub open spec fn charts_html(cs: Seq<Seq<char>>, title: Seq<char>, n: int) -> Seq<char>
    decreases n,
{
    if n <= 0 {
        Seq::empty()
    } else {
        charts_html(cs, title, n - 1) + "<img src='"@ + cs[n - 1] + "' alt='"@ + title + "'/><br/>"@
    }
}

/// The fact list of a section, left out when there are no facts.
pub open spec fn facts_block(m: SectionModel) -> Seq<char> {
    if m.facts.len() > 0 {
        "<ul>"@ + facts_html(m.facts, m.facts.len() as int) + "</ul>"@
    } else {
        Seq::<char>::empty()
    }
}

/// The narrative paragraph of a section, left out when it is empty.
pub open spec fn narrative_block(m: SectionModel) -> Seq<char> {
    if m.narrative.len() > 0 {
        "<p>Narrative: "@ + m.narrative + "</p>"@
    } else {
        Seq::<char>::empty()
    }
}

/// One section: its title as a heading, its facts as a list, its
/// narrative as a paragraph, and its chart images; empty parts are left
/// out entirely.
pub open spec fn section_html(m: SectionModel) -> Seq<char> {
    "<h2>"@ + m.title + "</h2>"@ + facts_block(m) + narrative_block(m) + charts_html(
        m.chart_refs,
        m.title,
        m.chart_refs.len() as int,
    )
}

/// The first `n` sections, serialized in order.
pub open spec fn sections_html(ms: Seq<SectionModel>, n: int) -> Seq<char>
    decreases n,
{
    if n <= 0 {
        Seq::empty()
    } else {
        sections_html(ms, n - 1) + section_html(ms[n - 1])
    }
}

/// The whole document.
pub open spec fn spec_html(path: Seq<char>, ms: Seq<SectionModel>) -> Seq<char> {
    html_header(path) + sections_html(ms, ms.len() as int) + "</body></html>"@
}

#[verifier::rlimit(60)]
fn append_facts(html: &mut String, s: &ReportSection)
    ensures
        final(html)@ == old(html)@ + facts_block(section_model(*s)),
{
    let ghost base = html@;
    if s.facts.len() > 0 {
        html.append("<ul>");
        let mut j: usize = 0;
        while j < s.facts.len()
            invariant
                j <= s.facts@.len(),
                html@ == base + "<ul>"@ + facts_html(crate::stats::views(s.facts@), j as int),
            decreases s.facts@.len() - j,
        {
            proof {
                assert(crate::stats::views(s.facts@)[j as int] == s.facts@[j as int]@);
            }
            html.append("<li>");
            html.append(s.facts[j].as_str());
            html.append("</li>");
            proof {
                assert(html@ =~= base + "<ul>"@ + facts_html(
                    crate::stats::views(s.facts@),
                    j as int + 1,
                ));
            }
            j = j + 1;
        }
        html.append("</ul>");
        proof {
            assert(html@ =~= base + facts_block(section_model(*s)));
        }
    } else {
        proof {
            assert(html@ =~= base + facts_block(section_model(*s)));
        }
    }
}

#[verifier::rlimit(60)]
fn append_charts(html: &mut String, s: &ReportSection)
    ensures
        final(html)@ == old(html)@ + charts_html(
            crate::stats::views(s.chart_refs@),
            s.title@,
            s.chart_refs@.len() as int,
        ),
{
    let ghost base = html@;
    let mut k: usize = 0;
    while k < s.chart_refs.len()
        invariant
            k <= s.chart_refs@.len(),
            html@ == base + charts_html(crate::stats::views(s.chart_refs@), s.title@, k as int),
        decreases s.chart_refs@.len() - k,
    {
        proof {
            assert(crate::stats::views(s.chart_refs@)[k as int] == s.chart_refs@[k as int]@);
        }
        html.append("<img src='");
        html.append(s.chart_refs[k].as_str());
        html.append("' alt='");
        html.append(s.title.as_str());
        html.append("'/><br/>");
        proof {
            assert(html@ =~= base + charts_html(
                crate::stats::views(s.chart_refs@),
                s.title@,
                k as int + 1,
            ));
        }
        k = k + 1;
    }
}

#[verifier::rlimit(60)]
fn append_section(html: &mut String, s: &ReportSection)
    ensures
        final(html)@ == old(html)@ + section_html(section_model(*s)),
{
    let ghost base = html@;
    let ghost m = section_model(*s);
    html.append("<h2>");
    html.append(s.title.as_str());
    html.append("</h2>");
    proof {
        assert(html@ =~= base + ("<h2>"@ + m.title + "</h2>"@));
    }
    append_facts(html, s);
    let ghost with_facts = html@;
    if !s.narrative.as_str().is_empty() {
        html.append("<p>Narrative: ");
        html.append(s.narrative.as_str());
        html.append("</p>");
    }
    proof {
        assert(html@ =~= with_facts + narrative_block(m));
    }
    let ghost with_narrative = html@;
    append_charts(html, s);
    proof {
        assert(with_facts =~= base + ("<h2>"@ + m.title + "</h2>"@) + facts_block(m));
        assert(with_narrative =~= with_facts + narrative_block(m));
        assert(html@ =~= with_narrative + charts_html(
            m.chart_refs,
            m.title,
            m.chart_refs.len() as int,
        ));
        assert(html@ =~= base + section_html(m));
    }
}

/// Serializes the report sections to one HTML document: a fixed head
/// naming the source file, each section in order as a heading, a fact
/// list, a narrative paragraph and its images, and nothing else — the
/// same sections always give the same bytes.
pub fn html_of_sections(path: &str, sections: &Vec<ReportSection>) -> (r: String)
    ensures
        r@ == spec_html(path@, crate::report::models(sections@)),
{
    let ghost ms = crate::report::models(sections@);
    let mut html =
        "<html><head><title>Data Storytelling Report</title></head><body>\n<h1>Data Storytelling Report</h1><h2>File: ".to_owned();
    html.append(path);
    html.append("</h2>");
    proof {
        assert(html@ =~= html_header(path@));
    }
    let mut i: usize = 0;
    while i < sections.len()
        invariant
            i <= sections@.len(),
            ms == crate::report::models(sections@),
            html@ == html_header(path@) + sections_html(ms, i as int),
        decreases sections@.len() - i,
    {
        proof {
            assert(ms[i as int] == section_model(sections@[i as int]));
        }
        append_section(&mut html, &sections[i]);
        proof {
            assert(html@ =~= html_header(path@) + sections_html(ms, i as int + 1));
        }
        i = i + 1;
    }
    html.append("</body></html>");
    proof {
        assert(html@ =~= spec_html(path@, ms));
    }
    html
}

} // verus!
