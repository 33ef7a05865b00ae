use vstd::prelude::*;
use vstd::string::StringExecFns;

use crate::fixed::Fx;
use crate::fixed::all_wf;
use crate::stats::{q1_index, q3_index, sorted_of};
use crate::stats::sort_fx;
use crate::text::dec_digits;
use crate::text::usize_string;

verus! {

/// One cell of a numeric column: an amount, or a missing entry (a cell
/// whose text wrote no usable finite number).
#[derive(Clone, Copy, PartialEq, Eq, Structural, Debug)]
pub enum NumCell {
    Missing,
    Value(Fx),
}

/// Every present amount of the column is well formed.
pub open spec fn cells_wf(s: Seq<NumCell>) -> bool {
    forall|i: int| 0 <= i < s.len() ==> (#[trigger] s[i] matches NumCell::Value(f) ==> f.wf())
}

/// The present amounts of the column, in column order.
pub open spec fn present_values(s: Seq<NumCell>) -> Seq<Fx>
    decreases s.len(),
{
    if s.len() == 0 {
        Seq::empty()
    } else {
        let rest = present_values(s.drop_last());
        match s.last() {
            NumCell::Value(f) => rest.push(f),
            NumCell::Missing => rest,
        }
    }
}

/// How many cells of the column are missing.
pub open spec fn missing_of(s: Seq<NumCell>) -> int {
    s.len() - present_values(s).len()
}

pub proof fn lemma_present_values_ensures(s: Seq<NumCell>)
    ensures
        present_values(s).len() <= s.len(),
        cells_wf(s) ==> all_wf(present_values(s)),
    decreases s.len(),
{
    if s.len() > 0 {
        assert(cells_wf(s) ==> cells_wf(s.drop_last())) by {
            assert(forall|i: int|
                0 <= i < s.len() - 1 ==> s.drop_last()[i] == #[trigger] s[i]);
        }
        lemma_present_values_ensures(s.drop_last());
    }
}

/// `v` lies strictly outside the Tukey fences drawn at one and a half
/// interquartile ranges beyond the quartiles.  The comparison doubles
/// both sides, so the halves stay exact integers.
pub open spec fn is_outlier(v: Fx, q1: Fx, q3: Fx) -> bool {
    let iqr = q3.raw - q1.raw;
    2 * v.raw < 2 * q1.raw - 3 * iqr || 2 * v.raw > 2 * q3.raw + 3 * iqr
}

/// The amounts of `p` strictly outside the fences, in order.
pub open spec fn outliers_of(p: Seq<Fx>, q1: Fx, q3: Fx) -> Seq<Fx>
    decreases p.len(),
{
    if p.len() == 0 {
        Seq::empty()
    } else {
        let rest = outliers_of(p.drop_last(), q1, q3);
        if is_outlier(p.last(), q1, q3) {
            rest.push(p.last())
        } else {
            rest
        }
    }
}

proof fn lemma_outliers_of_are_outliers(p: Seq<Fx>, q1: Fx, q3: Fx)
    ensures
        forall|i: int|
            0 <= i < outliers_of(p, q1, q3).len() ==> is_outlier(
                #[trigger] outliers_of(p, q1, q3)[i],
                q1,
                q3,
            ),
        outliers_of(p, q1, q3).len() <= p.len(),
    decreases p.len(),
{
    if p.len() > 0 {
        lemma_outliers_of_are_outliers(p.drop_last(), q1, q3);
    }
}

/// The lower quartile of the column's present amounts.
pub open spec fn spec_q1(s: Seq<NumCell>) -> Fx {
    let p = present_values(s);
    sorted_of(p)[q1_index(p.len() as int)]
}

/// The upper quartile of the column's present amounts.
pub open spec fn spec_q3(s: Seq<NumCell>) -> Fx {
    let p = present_values(s);
    sorted_of(p)[q3_index(p.len() as int)]
}

/// What the cleaning diagnosis of a column says.
pub struct Diagnosis {
    /// How many cells are missing.
    pub missing_count: usize,
    /// How many present amounts lie strictly outside the fences.
    pub outlier_count: usize,
    /// Those amounts, in column order.
    pub outlier_values: Vec<Fx>,
    /// The cleaning advice, one sentence a line.
    pub suggestions: Vec<String>,
}

/// The advice lines owed for `m` missing cells and `o` outliers: one
/// line per nonzero count, and the single line `No cleaning needed`
/// exactly when both counts are zero.
pub open spec fn spec_suggestions(m: int, o: int) -> Seq<Seq<char>> {
    let first = if m > 0 {
        seq![dec_digits(m as nat) + " missing values detected"@]
    } else {
        Seq::<Seq<char>>::empty()
    };
    let second = if o > 0 {
        seq![dec_digits(o as nat) + " outliers detected"@]
    } else {
        Seq::<Seq<char>>::empty()
    };
    if m <= 0 && o <= 0 {
        seq!["No cleaning needed"@]
    } else {
        first + second
    }
}

/// Filters the present amounts out of a numeric column, in order.
pub fn present_of(data: &Vec<NumCell>) -> (p: Vec<Fx>)
    requires
        cells_wf(data@),
    ensures
        p@ == present_values(data@),
        all_wf(p@),
{
    let mut p: Vec<Fx> = Vec::new();
    let mut i: usize = 0;
    proof {
        assert(data@.take(0) =~= Seq::<NumCell>::empty());
        lemma_present_values_ensures(data@);
    }
    while i < data.len()
        invariant
            i <= data@.len(),
            cells_wf(data@),
            p@ == present_values(data@.take(i as int)),
        decreases data@.len() - i,
    {
        proof {
            let pre = data@.take(i as int);
            let post = data@.take(i as int + 1);
            assert(post.drop_last() =~= pre);
            assert(post.last() == data@[i as int]);
        }
        match data[i] {
            NumCell::Value(f) => {
                p.push(f);
            },
            NumCell::Missing => {},
        }
        i = i + 1;
    }
    proof {
        assert(data@.take(data@.len() as int) =~= data@);
        lemma_present_values_ensures(data@);
        assert(all_wf(present_values(data@)));
    }
    p
}

/// Diagnoses a numeric column: counts the missing cells, flags every
/// present amount strictly outside the Tukey fences, and words the
/// cleaning advice.  Needs at least one present amount, since fences
/// come from quartiles.
pub fn diagnose(data: &Vec<NumCell>) -> (d: Diagnosis)
    requires
        cells_wf(data@),
        present_values(data@).len() > 0,
    ensures
        d.missing_count == missing_of(data@),
        d.outlier_values@ == outliers_of(present_values(data@), spec_q1(data@), spec_q3(data@)),
        d.outlier_count == d.outlier_values@.len(),
        forall|i: int|
            0 <= i < d.outlier_values@.len() ==> is_outlier(
                #[trigger] d.outlier_values@[i],
                spec_q1(data@),
                spec_q3(data@),
            ),
        crate::stats::views(d.suggestions@) == spec_suggestions(
            missing_of(data@),
            d.outlier_values@.len() as int,
        ),
{
    let ghost gd = data@;
    let p = present_of(data);
    proof {
        lemma_present_values_ensures(gd);
    }
    let missing = data.len() - p.len();
    let sorted = sort_fx(&p);
    proof {
        crate::stats::lemma_sorted_of_ensures(p@);
    }
    let n = sorted.len();
    let i1 = n / 4;
    let i3 = ((3 * (n as u128)) / 4) as usize;
    let i3 = if i3 <= n - 1 {
        i3
    } else {
        n - 1
    };
    proof {
        assert(3 * (n as u128) == 3 * (n as int));
        assert(i1 as int == q1_index(n as int));
        assert(i3 as int == q3_index(n as int));
    }
    let q1 = sorted[i1];
    let q3 = sorted[i3];
    let iqr = q3.raw - q1.raw;
    let lo2 = 2 * q1.raw - 3 * iqr;
    let hi2 = 2 * q3.raw + 3 * iqr;
    let mut outliers: Vec<Fx> = Vec::new();
    let mut i: usize = 0;
    proof {
        assert(p@.take(0) =~= Seq::<Fx>::empty());
        lemma_outliers_of_are_outliers(p@, q1, q3);
    }
    while i < p.len()
        invariant
            i <= p@.len(),
            all_wf(p@),
            q1.wf(),
            q3.wf(),
            iqr == q3.raw - q1.raw,
            lo2 == 2 * q1.raw - 3 * iqr,
            hi2 == 2 * q3.raw + 3 * iqr,
            outliers@ == outliers_of(p@.take(i as int), q1, q3),
        decreases p@.len() - i,
    {
        proof {
            let pre = p@.take(i as int);
            let post = p@.take(i as int + 1);
            assert(post.drop_last() =~= pre);
            assert(post.last() == p@[i as int]);
            assert(p@[i as int].wf());
        }
        let v = p[i];
        if 2 * v.raw < lo2 || 2 * v.raw > hi2 {
            outliers.push(v);
        }
        i = i + 1;
    }
    proof {
        assert(p@.take(p@.len() as int) =~= p@);
        lemma_outliers_of_are_outliers(p@, q1, q3);
    }
    let outlier_count = outliers.len();
    let mut suggestions: Vec<String> = Vec::new();
    if missing > 0 {
        let mut line = usize_string(missing);
        proof {
            reveal_strlit(" missing values detected");
        }
        line.append(" missing values detected");
        suggestions.push(line);
    }
    if outlier_count > 0 {
        let mut line = usize_string(outlier_count);
        proof {
            reveal_strlit(" outliers detected");
        }
        line.append(" outliers detected");
        suggestions.push(line);
    }
    if missing == 0 && outlier_count == 0 {
        proof {
            reveal_strlit("No cleaning needed");
        }
        suggestions.push("No cleaning needed".to_owned());
    }
    proof {
        assert(crate::stats::views(suggestions@) =~= spec_suggestions(
            missing_of(gd),
            outliers@.len() as int,
        ));
    }
    Diagnosis { missing_count: missing, outlier_count, outlier_values: outliers, suggestions }
}

/// The cleaning advice for a numeric column, alone: what `diagnose`
/// would say.  Needs at least one present amount.
pub fn cleaning_suggestions(data: &Vec<NumCell>) -> (s: Vec<String>)
    requires
        cells_wf(data@),
        present_values(data@).len() > 0,
    ensures
        crate::stats::views(s@) == spec_suggestions(
            missing_of(data@),
            outliers_of(present_values(data@), spec_q1(data@), spec_q3(data@)).len() as int,
        ),
{
    let d = diagnose(data);
    d.suggestions
}

} // verus!
