use vstd::prelude::*;

use crate::fixed::Fx;
use crate::fixed::all_wf;
use crate::stats::sum_raw;

verus! {

/// Most rows a column may have for the engine's exact correlation
/// arithmetic to stay inside `i128`.
pub const MAX_ROWS: usize = 1_000_000;

/// Sum of the products of paired raw amounts over the first `n` pairs.
pub open spec fn sum_prod_prefix(x: Seq<Fx>, y: Seq<Fx>, n: int) -> int
    decreases n,
{
    if n <= 0 {
        0
    } else {
        sum_prod_prefix(x, y, n - 1) + x[n - 1].raw * y[n - 1].raw
    }
}

/// Sum of the products of paired raw amounts.
pub open spec fn sum_prod(x: Seq<Fx>, y: Seq<Fx>) -> int {
    sum_prod_prefix(x, y, x.len() as int)
}

/// `n · Σ xy − Σx · Σy`: the Pearson numerator scaled by `n²`, an exact
/// integer in squared raw units.
pub open spec fn pearson_numerator(x: Seq<Fx>, y: Seq<Fx>) -> int {
    x.len() * sum_prod(x, y) - sum_raw(x) * sum_raw(y)
}

/// `n · Σ x² − (Σx)²`: the variance sum of `x` scaled by `n²`, an exact
/// integer in squared raw units.
pub open spec fn variance_sum(x: Seq<Fx>) -> int {
    x.len() * sum_prod(x, x) - sum_raw(x) * sum_raw(x)
}

/// The exact integer ingredients of a Pearson correlation coefficient:
/// the coefficient itself is `numerator / sqrt(den_x · den_y)`, a real
/// number the caller may approximate as it pleases.
#[derive(Clone, Copy, PartialEq, Eq, Structural, Debug)]
pub struct CorrelationParts {
    pub numerator: i128,
    pub den_x: i128,
    pub den_y: i128,
}

/// The sum of the first `n` raw amounts, prefix form of `sum_raw`.
pub open spec fn sum_raw_prefix(s: Seq<Fx>, n: int) -> int
    decreases n,
{
    if n <= 0 {
        0
    } else {
        sum_raw_prefix(s, n - 1) + s[n - 1].raw
    }
}

proof fn lemma_sum_raw_prefix_full(s: Seq<Fx>, n: int)
    requires
        0 <= n <= s.len(),
    ensures
        sum_raw_prefix(s, n) == sum_raw(s.take(n)),
    decreases n,
{
    if n > 0 {
        lemma_sum_raw_prefix_full(s, n - 1);
        assert(s.take(n).drop_last() =~= s.take(n - 1));
        assert(s.take(n).last() == s[n - 1]);
    } else {
        assert(s.take(0) =~= Seq::<Fx>::empty());
    }
}

/// The exact ingredients of the Pearson correlation between two paired
/// columns, or nothing when the pairing is undefined: the columns differ
/// in length or are empty (correlation is simply not defined there), or
/// either variance sum is exactly zero (a constant column, where no
/// linear relationship exists and the coefficient would divide by zero).
pub fn pearson_correlation(x: &Vec<Fx>, y: &Vec<Fx>) -> (r: Option<CorrelationParts>)
    requires
        all_wf(x@),
        all_wf(y@),
        x@.len() <= MAX_ROWS,
    ensures
        r is Some <==> (x@.len() == y@.len() && x@.len() > 0 && variance_sum(x@) != 0
            && variance_sum(y@) != 0),
        (r matches Some(p) ==> {
            &&& p.numerator == pearson_numerator(x@, y@)
            &&& p.den_x == variance_sum(x@)
            &&& p.den_y == variance_sum(y@)
        }),
{
    if x.len() != y.len() || x.len() == 0 {
        return None;
    }
    let ghost gx = x@;
    let ghost gy = y@;
    let n = x.len();
    let mut sx: i128 = 0;
    let mut sy: i128 = 0;
    let mut sxy: i128 = 0;
    let mut sxx: i128 = 0;
    let mut syy: i128 = 0;
    let mut i: usize = 0;
    while i < n
        invariant
            i <= n == gx.len() == gy.len(),
            n <= MAX_ROWS,
            gx == x@,
            gy == y@,
            all_wf(gx),
            all_wf(gy),
            sx == sum_raw_prefix(gx, i as int),
            sy == sum_raw_prefix(gy, i as int),
            sxy == sum_prod_prefix(gx, gy, i as int),
            sxx == sum_prod_prefix(gx, gx, i as int),
            syy == sum_prod_prefix(gy, gy, i as int),
            -(i as int * 1_000_000_000_000) <= sx <= i as int * 1_000_000_000_000,
            -(i as int * 1_000_000_000_000) <= sy <= i as int * 1_000_000_000_000,
            -(i as int * 1_000_000_000_000_000_000_000_000) <= sxy
                <= i as int * 1_000_000_000_000_000_000_000_000,
            -(i as int * 1_000_000_000_000_000_000_000_000) <= sxx
                <= i as int * 1_000_000_000_000_000_000_000_000,
            -(i as int * 1_000_000_000_000_000_000_000_000) <= syy
                <= i as int * 1_000_000_000_000_000_000_000_000,
        decreases n - i,
    {
        let xi: i128 = x[i].raw as i128;
        let yi: i128 = y[i].raw as i128;
        proof {
            assert(gx[i as int].wf());
            assert(gy[i as int].wf());
            let q: int = 1_000_000_000_000_000_000_000_000;
            assert(-q <= xi * yi <= q && -q <= xi * xi <= q && -q <= yi * yi <= q)
                by (nonlinear_arith)
                requires
                    -1_000_000_000_000 <= xi <= 1_000_000_000_000,
                    -1_000_000_000_000 <= yi <= 1_000_000_000_000,
                    q == 1_000_000_000_000_000_000_000_000,
            ;
        }
        sx = sx + xi;
        sy = sy + yi;
        sxy = sxy + xi * yi;
        sxx = sxx + xi * xi;
        syy = syy + yi * yi;
        i = i + 1;
    }
    proof {
        lemma_sum_raw_prefix_full(gx, n as int);
        lemma_sum_raw_prefix_full(gy, n as int);
        assert(gx.take(n as int) =~= gx);
        assert(gy.take(n as int) =~= gy);
        let nn = n as int;
        let big: int = 1_000_000_000_000_000_000_000_000_000_000;
        let huge: int = 1_000_000_000_000_000_000_000_000_000_000_000_000;
        assert(-big <= sxy <= big && -big <= sxx <= big && -big <= syy <= big);
        assert(-(huge) <= nn * sxy <= huge && -(huge) <= nn * sxx <= huge && -(huge) <= nn * syy
            <= huge) by (nonlinear_arith)
            requires
                0 < nn <= 1_000_000,
                huge == 1_000_000_000_000_000_000_000_000_000_000_000_000,
                big == 1_000_000_000_000_000_000_000_000_000_000,
                -big <= sxy <= big,
                -big <= sxx <= big,
                -big <= syy <= big,
        ;
        assert(-(huge) <= sx * sy <= huge && -(huge) <= sx * sx <= huge && -(huge) <= sy * sy
            <= huge) by (nonlinear_arith)
            requires
                huge == 1_000_000_000_000_000_000_000_000_000_000_000_000,
                -1_000_000_000_000_000_000 <= sx <= 1_000_000_000_000_000_000,
                -1_000_000_000_000_000_000 <= sy <= 1_000_000_000_000_000_000,
        ;
    }
    let ni: i128 = n as i128;
    let num: i128 = ni * sxy - sx * sy;
    let den_x: i128 = ni * sxx - sx * sx;
    let den_y: i128 = ni * syy - sy * sy;
    if den_x == 0 || den_y == 0 {
        return None;
    }
    Some(CorrelationParts { numerator: num, den_x, den_y })
}

/// One pairwise correlation result: which two columns, and the exact
/// ingredients of their coefficient.
#[derive(Clone, Copy, PartialEq, Eq, Structural, Debug)]
pub struct CorrelationEdge {
    pub column_a_index: usize,
    pub column_b_index: usize,
    pub parts: CorrelationParts,
}

/// The correlation of the pair `(a, b)`, over the present amounts of the
/// two columns: one edge where the coefficient exists, nothing where the
/// amounts differ in number, are absent, or a variance sum is zero.
pub open spec fn pair_edges(nums: Seq<Seq<crate::diagnose::NumCell>>, a: int, b: int) -> Seq<
    CorrelationEdge,
> {
    let x = crate::diagnose::present_values(nums[a]);
    let y = crate::diagnose::present_values(nums[b]);
    if x.len() == y.len() && x.len() > 0 && variance_sum(x) != 0 && variance_sum(y) != 0 {
        seq![
            CorrelationEdge {
                column_a_index: a as usize,
                column_b_index: b as usize,
                parts: CorrelationParts {
                    numerator: pearson_numerator(x, y) as i128,
                    den_x: variance_sum(x) as i128,
                    den_y: variance_sum(y) as i128,
                },
            },
        ]
    } else {
        Seq::empty()
    }
}

/// The edges of column `a` against the columns before `j`, beyond `a`.
pub open spec fn row_edges(nums: Seq<Seq<crate::diagnose::NumCell>>, a: int, j: int) -> Seq<
    CorrelationEdge,
>
    decreases j - a,
{
    if j <= a + 1 {
        Seq::empty()
    } else {
        row_edges(nums, a, j - 1) + pair_edges(nums, a, j - 1)
    }
}

/// The edges of all pairs whose first column is before `i`.
pub open spec fn edges_upto(nums: Seq<Seq<crate::diagnose::NumCell>>, i: int) -> Seq<
    CorrelationEdge,
>
    decreases i,
{
    if i <= 0 {
        Seq::empty()
    } else {
        edges_upto(nums, i - 1) + row_edges(nums, i - 1, nums.len() as int)
    }
}

/// Every unordered pair of numeric columns, in index order, with the
/// exact ingredients of its Pearson coefficient; pairs without a
/// coefficient are left out.
pub fn correlation_edges(num: &Vec<Vec<crate::diagnose::NumCell>>) -> (r: Vec<CorrelationEdge>)
    requires
        forall|i: int| 0 <= i < num@.len() ==> crate::diagnose::cells_wf(#[trigger] num@[i]@),
        forall|i: int| 0 <= i < num@.len() ==> (#[trigger] num@[i]@).len() <= MAX_ROWS,
    ensures
        r@ == edges_upto(crate::report::num_views(num@), num@.len() as int),
{
    let ghost gn = crate::report::num_views(num@);
    let mut r: Vec<CorrelationEdge> = Vec::new();
    let mut i: usize = 0;
    while i < num.len()
        invariant
            i <= num@.len(),
            gn == crate::report::num_views(num@),
            forall|k: int| 0 <= k < num@.len() ==> crate::diagnose::cells_wf(#[trigger] num@[k]@),
            forall|k: int| 0 <= k < num@.len() ==> (#[trigger] num@[k]@).len() <= MAX_ROWS,
            r@ == edges_upto(gn, i as int),
        decreases num@.len() - i,
    {
        let x = crate::diagnose::present_of(&num[i]);
        proof {
            assert(gn[i as int] == num@[i as int]@);
            crate::diagnose::lemma_present_values_ensures(num@[i as int]@);
        }
        let mut j: usize = i + 1;
        while j < num.len()
            invariant
                i < j <= num@.len(),
                i < num@.len(),
                gn == crate::report::num_views(num@),
                forall|k: int|
                    0 <= k < num@.len() ==> crate::diagnose::cells_wf(#[trigger] num@[k]@),
                forall|k: int| 0 <= k < num@.len() ==> (#[trigger] num@[k]@).len() <= MAX_ROWS,
                x@ == crate::diagnose::present_values(gn[i as int]),
                crate::fixed::all_wf(x@),
                x@.len() <= MAX_ROWS,
                r@ == edges_upto(gn, i as int) + row_edges(gn, i as int, j as int),
            decreases num@.len() - j,
        {
            let y = crate::diagnose::present_of(&num[j]);
            proof {
                assert(gn[j as int] == num@[j as int]@);
                crate::diagnose::lemma_present_values_ensures(num@[j as int]@);
            }
            match pearson_correlation(&x, &y) {
                Some(parts) => {
                    let e = CorrelationEdge { column_a_index: i, column_b_index: j, parts };
                    proof {
                        assert(row_edges(gn, i as int, j as int + 1) =~= row_edges(
                            gn,
                            i as int,
                            j as int,
                        ) + pair_edges(gn, i as int, j as int));
                        assert(pair_edges(gn, i as int, j as int) =~= seq![e]);
                        assert(r@.push(e) =~= edges_upto(gn, i as int) + row_edges(
                            gn,
                            i as int,
                            j as int + 1,
                        ));
                    }
                    r.push(e);
                },
                None => {
                    proof {
                        assert(pair_edges(gn, i as int, j as int) =~= Seq::<CorrelationEdge>::empty());
                        assert(r@ =~= edges_upto(gn, i as int) + row_edges(
                            gn,
                            i as int,
                            j as int + 1,
                        ));
                    }
                },
            }
            j = j + 1;
        }
        proof {
            assert(edges_upto(gn, i as int + 1) =~= edges_upto(gn, i as int) + row_edges(
                gn,
                i as int,
                gn.len() as int,
            ));
        }
        i = i + 1;
    }
    r
}

} // verus!
