use vstd::prelude::*;
use vstd::relations::{sorted_by, total_ordering};
use vstd::seq_lib::group_to_multiset_ensures;
use vstd::seq_lib::lemma_multiset_commutative;
use vstd::seq_lib::lemma_sorted_unique;

use crate::fixed::Fx;
use crate::fixed::RAW_BOUND;
use crate::fixed::all_wf;

verus! {

/// The character sequences of a column of strings.
pub open spec fn views(s: Seq<String>) -> Seq<Seq<char>> {
    s.map_values(|v: String| v@)
}

/// How many of the first `n` entries of `s` equal `v`.
pub open spec fn count_prefix(s: Seq<Seq<char>>, v: Seq<char>, n: int) -> int
    decreases n,
{
    if n <= 0 {
        0
    } else {
        count_prefix(s, v, n - 1) + if s[n - 1] == v {
            1int
        } else {
            0int
        }
    }
}

/// How many entries of `s` equal `v`.
pub open spec fn count_of(s: Seq<Seq<char>>, v: Seq<char>) -> int {
    count_prefix(s, v, s.len() as int)
}

proof fn lemma_count_prefix_bounds(s: Seq<Seq<char>>, v: Seq<char>, n: int)
    requires
        0 <= n,
    ensures
        0 <= count_prefix(s, v, n) <= n,
    decreases n,
{
    if n > 0 {
        lemma_count_prefix_bounds(s, v, n - 1);
    }
}

/// An entry of `s` is counted at least once by `count_of`.
proof fn lemma_count_of_member(s: Seq<Seq<char>>, i: int)
    requires
        0 <= i < s.len(),
    ensures
        count_of(s, s[i]) >= 1,
{
    lemma_count_prefix_member(s, s[i], i, s.len() as int);
}

proof fn lemma_count_prefix_member(s: Seq<Seq<char>>, v: Seq<char>, i: int, n: int)
    requires
        0 <= i < n,
        s[i] == v,
    ensures
        count_prefix(s, v, n) >= 1,
    decreases n,
{
    lemma_count_prefix_bounds(s, v, n - 1);
    if i < n - 1 {
        lemma_count_prefix_member(s, v, i, n - 1);
    }
}

/// How many cells of the column equal `v`.
pub fn value_count(data: &Vec<String>, v: &String) -> (c: usize)
    ensures
        c == count_of(views(data@), v@),
{
    let ghost vs = views(data@);
    let mut c: usize = 0;
    let mut i: usize = 0;
    while i < data.len()
        invariant
            0 <= i <= data@.len(),
            0 <= c <= i,
            c == count_prefix(vs, v@, i as int),
            vs == views(data@),
        decreases data@.len() - i,
    {
        proof {
            assert(vs[i as int] == data@[i as int]@);
        }
        if data[i].eq(v) {
            c = c + 1;
        }
        i = i + 1;
    }
    c
}

/// `r` stands at position `i` of the column, no earlier cell equals it,
/// its count is maximal, and every earlier cell has a strictly smaller
/// count: `r` is the first value to reach the maximal count.
pub open spec fn first_seen_mode_at(vs: Seq<Seq<char>>, r: Seq<char>, i: int) -> bool {
    &&& 0 <= i < vs.len()
    &&& vs[i] == r
    &&& (forall|j: int| 0 <= j < i ==> vs[j] != r)
    &&& (forall|j: int| 0 <= j < vs.len() ==> count_of(vs, #[trigger] vs[j]) <= count_of(vs, r))
    &&& (forall|j: int| 0 <= j < i ==> count_of(vs, #[trigger] vs[j]) < count_of(vs, r))
}

/// As `first_seen_mode_at`, but with the count comparisons limited to the
/// cells before `n`; the running claim that the mode loop maintains.
spec fn first_seen_upto(vs: Seq<Seq<char>>, r: Seq<char>, k: int, n: int) -> bool {
    &&& 0 <= k < n
    &&& vs[k] == r
    &&& (forall|j: int| 0 <= j < k ==> vs[j] != r)
    &&& (forall|j: int| 0 <= j < k ==> count_of(vs, #[trigger] vs[j]) < count_of(vs, r))
}

/// The position, among the first `n` cells, of the first cell whose
/// count over the whole column reaches the running maximum.
pub open spec fn best_index(vs: Seq<Seq<char>>, n: int) -> int
    decreases n,
{
    if n <= 1 {
        0
    } else {
        let b = best_index(vs, n - 1);
        if count_of(vs, vs[n - 1]) > count_of(vs, vs[b]) {
            n - 1
        } else {
            b
        }
    }
}

/// The mode of the column: the most frequent cell value, ties going to
/// the value that occurs first; the empty string for an empty column.
pub open spec fn spec_mode(vs: Seq<Seq<char>>) -> Seq<char> {
    if vs.len() == 0 {
        Seq::empty()
    } else {
        vs[best_index(vs, vs.len() as int)]
    }
}

proof fn lemma_best_index_in_range(vs: Seq<Seq<char>>, n: int)
    requires
        n >= 1,
    ensures
        0 <= best_index(vs, n) < n,
    decreases n,
{
    if n > 1 {
        lemma_best_index_in_range(vs, n - 1);
    }
}

/// The most frequent cell value of the column, with ties broken in favour
/// of the value that occurs first; the empty string for an empty column.
pub fn mode(data: &Vec<String>) -> (r: String)
    ensures
        r@ == spec_mode(views(data@)),
        data@.len() == 0 ==> r@ == Seq::<char>::empty(),
        data@.len() > 0 ==> exists|i: int| first_seen_mode_at(views(data@), r@, i),
{
    let ghost vs = views(data@);
    let mut best: String = String::new();
    let mut best_count: usize = 0;
    let mut i: usize = 0;
    while i < data.len()
        invariant
            0 <= i <= data@.len(),
            vs == views(data@),
            i == 0 ==> best_count == 0 && best@ == Seq::<char>::empty(),
            i > 0 ==> best_count == count_of(vs, best@),
            i > 0 ==> best@ == vs[best_index(vs, i as int)],
            i > 0 ==> exists|k: int| first_seen_upto(vs, best@, k, i as int),
            forall|j: int| 0 <= j < i ==> count_of(vs, #[trigger] vs[j]) <= best_count,
        decreases data@.len() - i,
    {
        let c = value_count(data, &data[i]);
        proof {
            lemma_count_of_member(vs, i as int);
        }
        if c > best_count {
            best = data[i].clone();
            best_count = c;
            proof {
                assert(vs[i as int] == best@);
                assert(first_seen_upto(vs, best@, i as int, i as int + 1));
            }
        } else {
            proof {
                let k = choose|k: int| first_seen_upto(vs, best@, k, i as int);
                assert(first_seen_upto(vs, best@, k, i as int + 1));
            }
        }
        i = i + 1;
    }
    proof {
        if data@.len() > 0 {
            let k = choose|k: int| first_seen_upto(vs, best@, k, data@.len() as int);
            assert(first_seen_mode_at(vs, best@, k));
        }
    }
    best
}

/// The order the statistics sort numeric cells by: ascending raw amounts.
pub open spec fn fx_le() -> spec_fn(Fx, Fx) -> bool {
    |a: Fx, b: Fx| a.raw <= b.raw
}

/// The column in ascending order.
pub open spec fn sorted_of(s: Seq<Fx>) -> Seq<Fx> {
    s.sort_by(fx_le())
}

proof fn lemma_fx_le_total()
    ensures
        total_ordering(fx_le()),
{
    assert forall|a: Fx, b: Fx| #[trigger] fx_le()(a, b) && fx_le()(b, a) implies a == b by {
        assert(a == Fx { raw: a.raw });
        assert(b == Fx { raw: b.raw });
    };
}

/// Sorting keeps the length, the elements, and their well-formedness.
pub proof fn lemma_sorted_of_ensures(s: Seq<Fx>)
    ensures
        sorted_of(s).len() == s.len(),
        sorted_by(sorted_of(s), fx_le()),
        sorted_of(s).to_multiset() == s.to_multiset(),
        all_wf(s) ==> all_wf(sorted_of(s)),
{
    broadcast use group_to_multiset_ensures;

    s.lemma_sort_by_ensures(fx_le());
    let t = sorted_of(s);
    assert(t.to_multiset() == s.to_multiset());
    assert(t.to_multiset().len() == s.to_multiset().len());
    if all_wf(s) {
        assert forall|i: int| 0 <= i < t.len() implies (#[trigger] t[i]).wf() by {
            assert(t.contains(t[i]));
            assert(t.to_multiset().count(t[i]) > 0);
            assert(s.contains(t[i]));
            let j = choose|j: int| 0 <= j < s.len() && s[j] == t[i];
            assert(s[j].wf());
        };
    }
}

/// Inserting anywhere in a sequence adds the element to its multiset.
proof fn lemma_insert_to_multiset(s: Seq<Fx>, i: int, x: Fx)
    requires
        0 <= i <= s.len(),
    ensures
        s.insert(i, x).to_multiset() =~= s.to_multiset().insert(x),
{
    broadcast use group_to_multiset_ensures;
    broadcast use vstd::multiset::group_multiset_axioms;

    let front = s.take(i);
    let back = s.skip(i);
    assert(s.insert(i, x) =~= front.push(x) + back);
    lemma_multiset_commutative(front.push(x), back);
    lemma_multiset_commutative(front, back);
    assert(front + back =~= s);
    assert(front.push(x).to_multiset() =~= front.to_multiset().insert(x));
}

/// Puts `x` where it belongs in an already sorted column.
fn insert_sorted(v: &mut Vec<Fx>, x: Fx)
    requires
        sorted_by(old(v)@, fx_le()),
    ensures
        sorted_by(final(v)@, fx_le()),
        final(v)@.to_multiset() == old(v)@.to_multiset().insert(x),
        final(v)@.len() == old(v)@.len() + 1,
{
    let mut pos: usize = 0;
    while pos < v.len() && v[pos].raw <= x.raw
        invariant
            pos <= v@.len(),
            v@ == old(v)@,
            forall|j: int| 0 <= j < pos ==> (#[trigger] v@[j]).raw <= x.raw,
        decreases v@.len() - pos,
    {
        pos = pos + 1;
    }
    let ghost s = v@;
    let ghost p = pos as int;
    v.insert(pos, x);
    proof {
        s.insert_ensures(p, x);
        assert forall|i: int, j: int| 0 <= i < j < v@.len() implies #[trigger] fx_le()(
            v@[i],
            v@[j],
        ) by {
            assert(forall|k: int| p <= k < s.len() ==> v@[k + 1] == s[k]);
            if j < p {
                assert(fx_le()(s[i], s[j]));
            } else if i < p && j == p {
                assert(v@[i] == s[i]);
            } else if i < p && j > p {
                assert(v@[i] == s[i] && v@[j] == s[j - 1]);
                if j - 1 >= p {
                    assert(p == s.len() || s[p].raw > x.raw);
                    if i <= j - 1 - 1 {
                        assert(fx_le()(s[i], s[j - 1]));
                    }
                }
            } else if i == p {
                assert(v@[j] == s[j - 1]);
                assert(p == s.len() || s[p].raw > x.raw);
                assert(fx_le()(s[p], s[j - 1]) || p == j - 1);
            } else {
                assert(v@[i] == s[i - 1] && v@[j] == s[j - 1]);
                assert(fx_le()(s[i - 1], s[j - 1]));
            }
        };
        lemma_insert_to_multiset(s, p, x);
    }
}

/// The column in ascending order, as a fresh vector.
pub fn sort_fx(data: &Vec<Fx>) -> (r: Vec<Fx>)
    ensures
        r@ == sorted_of(data@),
{
    let ghost all = data@;
    let mut acc: Vec<Fx> = Vec::new();
    let mut i: usize = 0;
    proof {
        broadcast use group_to_multiset_ensures;

        assert(all.take(0) =~= Seq::<Fx>::empty());
        assert(acc@.to_multiset() =~= all.take(0).to_multiset());
    }
    while i < data.len()
        invariant
            i <= all.len(),
            all == data@,
            sorted_by(acc@, fx_le()),
            acc@.to_multiset() == all.take(i as int).to_multiset(),
        decreases all.len() - i,
    {
        insert_sorted(&mut acc, data[i]);
        proof {
            broadcast use group_to_multiset_ensures;

            assert(all.take(i as int + 1) =~= all.take(i as int).push(all[i as int]));
        }
        i = i + 1;
    }
    proof {
        assert(all.take(all.len() as int) =~= all);
        all.lemma_sort_by_ensures(fx_le());
        lemma_fx_le_total();
        lemma_sorted_unique(acc@, sorted_of(all), fx_le());
    }
    acc
}

/// Division that rounds towards zero, the engine's rule wherever an exact
/// quotient does not exist.
pub open spec fn div_towards_zero(a: int, b: int) -> int {
    if a >= 0 {
        a / b
    } else {
        -((-a) / b)
    }
}

/// Exec division of a signed amount by a positive count, rounding towards
/// zero.
fn div_trunc(a: i128, b: i128) -> (q: i128)
    requires
        b > 0,
        a > i128::MIN,
    ensures
        q == div_towards_zero(a as int, b as int),
        (if a >= 0 {
            0 <= q <= a
        } else {
            a <= q <= 0
        }),
{
    if a >= 0 {
        let m: u128 = (a as u128) / (b as u128);
        proof {
            assert(a as u128 == a as int);
            vstd::arithmetic::div_mod::lemma_div_nonincreasing(a as int, b as int);
            vstd::arithmetic::div_mod::lemma_div_pos_is_pos(a as int, b as int);
        }
        m as i128
    } else {
        let m: u128 = ((-a) as u128) / (b as u128);
        proof {
            assert((-a) as u128 == -a as int);
            vstd::arithmetic::div_mod::lemma_div_nonincreasing(-a as int, b as int);
            vstd::arithmetic::div_mod::lemma_div_pos_is_pos(-a as int, b as int);
        }
        -(m as i128)
    }
}

/// The amounts of the column added up, in thousandth units.
pub open spec fn sum_raw(s: Seq<Fx>) -> int
    decreases s.len(),
{
    if s.len() == 0 {
        0
    } else {
        sum_raw(s.drop_last()) + s.last().raw
    }
}

proof fn lemma_sum_raw_bound(s: Seq<Fx>)
    requires
        all_wf(s),
    ensures
        -(s.len() as int * RAW_BOUND) <= sum_raw(s) <= s.len() as int * RAW_BOUND,
    decreases s.len(),
{
    if s.len() > 0 {
        assert(all_wf(s.drop_last())) by {
            assert(forall|i: int|
                0 <= i < s.len() - 1 ==> s.drop_last()[i] == #[trigger] s[i]);
        }
        lemma_sum_raw_bound(s.drop_last());
        assert(s.last().wf());
    }
}

/// The arithmetic mean of the column, or nothing when the column is
/// empty: the sum of the amounts divided by their number, rounding
/// towards zero to the nearest thousandth.
pub fn mean(data: &Vec<Fx>) -> (r: Option<Fx>)
    requires
        all_wf(data@),
    ensures
        r is Some <==> data@.len() > 0,
        data@.len() > 0 ==> (r matches Some(m) && m.raw
            == div_towards_zero(sum_raw(data@), data@.len() as int) && m.wf()),
{
    if data.len() == 0 {
        return None;
    }
    let ghost all = data@;
    let mut total: i128 = 0;
    let mut i: usize = 0;
    proof {
        assert(all.take(0) =~= Seq::<Fx>::empty());
    }
    while i < data.len()
        invariant
            i <= all.len(),
            all == data@,
            all_wf(all),
            total == sum_raw(all.take(i as int)),
            -(i as int * RAW_BOUND) <= total <= i as int * RAW_BOUND,
        decreases all.len() - i,
    {
        proof {
            let pre = all.take(i as int);
            let post = all.take(i as int + 1);
            assert(post.drop_last() =~= pre);
            assert(post.last() == all[i as int]);
            assert(all[i as int].wf());
        }
        total = total + data[i].raw as i128;
        i = i + 1;
    }
    proof {
        assert(all.take(all.len() as int) =~= all);
    }
    let q = div_trunc(total, data.len() as i128);
    proof {
        let n = all.len() as int;
        if total >= 0 {
            vstd::arithmetic::div_mod::lemma_div_is_ordered(total as int, n * RAW_BOUND, n);
            vstd::arithmetic::div_mod::lemma_div_multiples_vanish(RAW_BOUND as int, n);
        } else {
            vstd::arithmetic::div_mod::lemma_div_is_ordered(-total as int, n * RAW_BOUND, n);
            vstd::arithmetic::div_mod::lemma_div_multiples_vanish(RAW_BOUND as int, n);
        }
    }
    Some(Fx { raw: q as i64 })
}

/// The raw amount of the middle of the column once sorted: the single
/// middle amount when the length is odd, otherwise the average of the two
/// middle amounts, rounded towards zero.
pub open spec fn median_raw(s: Seq<Fx>) -> int {
    let t = sorted_of(s);
    let n = s.len() as int;
    if n % 2 == 1 {
        t[n / 2].raw as int
    } else {
        div_towards_zero(t[n / 2 - 1].raw + t[n / 2].raw, 2)
    }
}

/// The median of the column, or nothing when the column is empty.
pub fn median(data: &Vec<Fx>) -> (r: Option<Fx>)
    requires
        all_wf(data@),
    ensures
        r is Some <==> data@.len() > 0,
        data@.len() > 0 ==> (r matches Some(m) && m.raw == median_raw(data@) && m.wf()),
{
    if data.len() == 0 {
        return None;
    }
    let sorted = sort_fx(data);
    proof {
        lemma_sorted_of_ensures(data@);
    }
    let n = sorted.len();
    if n % 2 == 1 {
        Some(sorted[n / 2])
    } else {
        let a: i128 = sorted[n / 2 - 1].raw as i128;
        let b: i128 = sorted[n / 2].raw as i128;
        let q = div_trunc(a + b, 2);
        Some(Fx { raw: q as i64 })
    }
}

/// Index of the lower quartile in a sorted column of `n` cells: the cell
/// at one quarter of the way, by the nearest-rank rule.
pub open spec fn q1_index(n: int) -> int {
    if n / 4 <= n - 1 {
        n / 4
    } else {
        n - 1
    }
}

/// Index of the upper quartile: the cell three quarters of the way, kept
/// inside the column.
pub open spec fn q3_index(n: int) -> int {
    if 3 * n / 4 <= n - 1 {
        3 * n / 4
    } else {
        n - 1
    }
}

/// The lower and upper quartiles of the column by the nearest-rank rule,
/// or nothing when the column is empty.
pub fn quartiles(data: &Vec<Fx>) -> (r: Option<(Fx, Fx)>)
    requires
        all_wf(data@),
    ensures
        r is Some <==> data@.len() > 0,
        data@.len() > 0 ==> (r matches Some(q) && {
            &&& q.0 == sorted_of(data@)[q1_index(data@.len() as int)]
            &&& q.1 == sorted_of(data@)[q3_index(data@.len() as int)]
            &&& q.0.wf()
            &&& q.1.wf()
            &&& q.0.raw <= q.1.raw
        }),
{
    if data.len() == 0 {
        return None;
    }
    let sorted = sort_fx(data);
    proof {
        lemma_sorted_of_ensures(data@);
    }
    let n = sorted.len();
    let i1 = n / 4;
    let i1 = if i1 <= n - 1 {
        i1
    } else {
        n - 1
    };
    let i3 = ((3 * (n as u128)) / 4) as usize;
    let i3 = if i3 <= n - 1 {
        i3
    } else {
        n - 1
    };
    proof {
        assert(3 * (n as u128) == 3 * (n as int));
        assert(i1 as int == q1_index(n as int));
        assert(i3 as int == q3_index(n as int));
        assert(q1_index(n as int) <= q3_index(n as int)) by {
            vstd::arithmetic::div_mod::lemma_div_is_ordered(n as int, 3 * n, 4);
        }
        assert(fx_le()(sorted@[i1 as int], sorted@[i3 as int]) || i1 == i3);
    }
    Some((sorted[i1], sorted[i3]))
}

/// How many distinct cell values the column holds.
pub fn unique_count(data: &Vec<String>) -> (c: usize)
    ensures
        c == views(data@).to_set().len(),
{
    let ghost vs = views(data@);
    let mut c: usize = 0;
    let mut i: usize = 0;
    proof {
        broadcast use vstd::set_lib::group_set_lib_default;

        assert(vs.take(0) =~= Seq::<Seq<char>>::empty());
        assert(vs.take(0).to_set() =~= Set::<Seq<char>>::empty());
    }
    while i < data.len()
        invariant
            i <= data@.len(),
            vs == views(data@),
            c <= i,
            vs.take(i as int).to_set().finite(),
            c == vs.take(i as int).to_set().len(),
        decreases data@.len() - i,
    {
        let mut seen = false;
        let mut j: usize = 0;
        while j < i
            invariant
                j <= i < data@.len(),
                vs == views(data@),
                seen == exists|k: int| 0 <= k < j && vs[k] == vs[i as int],
            decreases i - j,
        {
            proof {
                assert(vs[j as int] == data@[j as int]@);
                assert(vs[i as int] == data@[i as int]@);
            }
            if data[j].eq(&data[i]) {
                seen = true;
            }
            j = j + 1;
        }
        proof {
            broadcast use vstd::set::group_set_axioms;
            broadcast use vstd::seq_lib::seq_to_set_is_finite;

            let pre = vs.take(i as int);
            let post = vs.take(i as int + 1);
            assert(post =~= pre.push(vs[i as int]));
            assert(post.to_set() =~= pre.to_set().insert(vs[i as int])) by {
                let vi = vs[i as int];
                assert forall|x: Seq<char>| post.contains(x) implies pre.contains(x) || x == vi by {
                    let k = choose|k: int| 0 <= k < post.len() && post[k] == x;
                    if k < i as int {
                        assert(pre[k] == x);
                    }
                };
                assert forall|x: Seq<char>| pre.contains(x) implies post.contains(x) by {
                    let k = choose|k: int| 0 <= k < pre.len() && pre[k] == x;
                    assert(post[k] == x);
                };
                assert(post[i as int] == vi);
                assert(post.contains(vi));
            }
            assert(pre.to_set().contains(vs[i as int]) <==> pre.contains(vs[i as int]));
            assert(seen <==> pre.contains(vs[i as int])) by {
                if seen {
                    let k = choose|k: int| 0 <= k < i as int && vs[k] == vs[i as int];
                    assert(pre[k] == vs[i as int]);
                    assert(pre.contains(pre[k]));
                }
                if pre.contains(vs[i as int]) {
                    let k = choose|k: int| 0 <= k < pre.len() && pre[k] == vs[i as int];
                    assert(vs[k] == vs[i as int]);
                }
            }
        }
        if !seen {
            c = c + 1;
        }
        i = i + 1;
    }
    proof {
        assert(vs.take(vs.len() as int) =~= vs);
    }
    c
}

} // verus!
