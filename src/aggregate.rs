use vstd::prelude::*;
use vstd::relations::{sorted_by, total_ordering};

verus! {

broadcast use vstd::seq_lib::group_to_multiset_ensures;

/// Ascending order on values, as a relation.
pub open spec fn value_leq() -> spec_fn(i64, i64) -> bool {
    |x: i64, y: i64| x <= y
}

/// The values of `s` in ascending order.
pub open spec fn ascending(s: Seq<i64>) -> Seq<i64> {
    s.sort_by(value_leq())
}

/// Sum of the values of `s`.
pub open spec fn sum_of(s: Seq<i64>) -> int
    decreases s.len(),
{
    if s.len() == 0 {
        0
    } else {
        sum_of(s.drop_last()) + s.last()
    }
}

/// Arithmetic mean of a nonempty `s`, rounded down to a whole thousandth.
pub open spec fn mean_of(s: Seq<i64>) -> int {
    sum_of(s) / (s.len() as int)
}

/// Midpoint of two values, rounded down.
pub open spec fn midpoint(a: int, b: int) -> int {
    (a + b) / 2
}

/// Median of a nonempty `s`: the middle value of its ascending arrangement,
/// or the midpoint of the two middle values when the count is even.
pub open spec fn median_of(s: Seq<i64>) -> int {
    let t = ascending(s);
    let n = t.len() as int;
    if n % 2 == 0 {
        midpoint(t[n / 2 - 1] as int, t[n / 2] as int)
    } else {
        t[n / 2] as int
    }
}

/// Relies on `slice::sort`: afterwards the vector holds the same values,
/// in ascending order.
#[verifier::external_body]
fn sort_ascending(v: &mut Vec<i64>)
    ensures
        final(v)@.to_multiset() == old(v)@.to_multiset(),
        sorted_by(final(v)@, value_leq()),
{
    v.sort();
}

proof fn lemma_value_leq_total()
    ensures
        total_ordering(value_leq()),
{
}

pub proof fn lemma_ascending_ensures(s: Seq<i64>)
    ensures
        ascending(s).to_multiset() == s.to_multiset(),
        sorted_by(ascending(s), value_leq()),
{
    lemma_value_leq_total();
    s.lemma_sort_by_ensures(value_leq());
}

/// Two ascending sequences that hold the same values are equal.
proof fn lemma_sorted_unique(a: Seq<i64>, b: Seq<i64>)
    requires
        sorted_by(a, value_leq()),
        sorted_by(b, value_leq()),
        a.to_multiset() == b.to_multiset(),
    ensures
        a == b,
    decreases a.len(),
{
    assert(a.len() == a.to_multiset().len());
    assert(b.len() == b.to_multiset().len());
    if a.len() == 0 {
        assert(a =~= b);
    } else {
        let n = a.len() - 1;
        let x = a.last();
        let y = b.last();
        assert(a.contains(x));
        assert(a.to_multiset().count(x) > 0);
        assert(b.contains(x));
        let j = choose|j: int| 0 <= j < b.len() && b[j] == x;
        assert(j == n || value_leq()(b[j], b[n]));
        assert(b.contains(y));
        assert(b.to_multiset().count(y) > 0);
        assert(a.contains(y));
        let k = choose|k: int| 0 <= k < a.len() && a[k] == y;
        assert(k == n || value_leq()(a[k], a[n]));
        assert(x == y);
        let a0 = a.drop_last();
        let b0 = b.drop_last();
        assert(a0.push(x) == a);
        assert(b0.push(x) == b);
        assert(a0.to_multiset().insert(x) == b0.to_multiset().insert(x));
        assert(a0.to_multiset() =~= b0.to_multiset()) by {
            assert forall|v: i64| a0.to_multiset().count(v) == b0.to_multiset().count(v) by {
                assert(a0.to_multiset().insert(x).count(v) == b0.to_multiset().insert(x).count(v));
            }
        }
        assert(sorted_by(a0, value_leq()));
        assert(sorted_by(b0, value_leq()));
        lemma_sorted_unique(a0, b0);
        assert(a =~= b);
    }
}

proof fn lemma_bounded_sum_step(sum: int, v: int, i: int)
    requires
        0 <= i < usize::MAX,
        i64::MIN * i <= sum <= i64::MAX * i,
        i64::MIN <= v <= i64::MAX,
    ensures
        i64::MIN * (i + 1) <= sum + v <= i64::MAX * (i + 1),
        i128::MIN < i64::MIN * (i + 1),
        i64::MAX * (i + 1) < i128::MAX,
{
    assert(i64::MIN * (i + 1) == i64::MIN * i + i64::MIN) by (nonlinear_arith);
    assert(i64::MAX * (i + 1) == i64::MAX * i + i64::MAX) by (nonlinear_arith);
    assert(i64::MIN * (i + 1) >= i64::MIN * (usize::MAX as int)) by (nonlinear_arith)
        requires
            i + 1 <= usize::MAX,
            0 <= i,
    ;
    assert(i64::MAX * (i + 1) <= i64::MAX * (usize::MAX as int)) by (nonlinear_arith)
        requires
            i + 1 <= usize::MAX,
            0 <= i,
    ;
}

proof fn lemma_mean_in_range(sum: int, n: int)
    requires
        n > 0,
        i64::MIN * n <= sum <= i64::MAX * n,
    ensures
        i64::MIN <= sum / n <= i64::MAX,
{
    vstd::arithmetic::div_mod::lemma_div_is_ordered(i64::MIN * n, sum, n);
    vstd::arithmetic::div_mod::lemma_div_is_ordered(sum, i64::MAX * n, n);
    vstd::arithmetic::div_mod::lemma_div_multiples_vanish(i64::MIN as int, n);
    vstd::arithmetic::div_mod::lemma_div_multiples_vanish(i64::MAX as int, n);
}

/// Median of `values`, or `None` when there are none.
pub fn find_median(values: &Vec<i64>) -> (r: Option<i64>)
    ensures
        values@.len() == 0 ==> r is None,
        values@.len() > 0 ==> r == Some(median_of(values@) as i64) && median_of(values@)
            == r->Some_0 as int,
{
    if values.len() == 0 {
        return None;
    }
    let mut sorted: Vec<i64> = Vec::new();
    let mut i: usize = 0;
    while i < values.len()
        invariant
            i <= values@.len(),
            sorted@ == values@.take(i as int),
        decreases values@.len() - i,
    {
        sorted.push(values[i]);
        i = i + 1;
        assert(sorted@ =~= values@.take(i as int));
    }
    assert(sorted@ =~= values@);
    sort_ascending(&mut sorted);
    proof {
        lemma_ascending_ensures(values@);
        lemma_sorted_unique(sorted@, ascending(values@));
    }
    assert(sorted@.len() == sorted@.to_multiset().len());
    assert(values@.len() == values@.to_multiset().len());
    let len = sorted.len();
    if len % 2 == 0 {
        let right = sorted[len / 2] as i128;
        let left = sorted[len / 2 - 1] as i128;
        let mid = (left + right).checked_div_euclid(2).unwrap();
        Some(mid as i64)
    } else {
        Some(sorted[len / 2])
    }
}

/// Mean of `values`, rounded down to a whole thousandth, or `None` when
/// there are none.
pub fn find_mean(values: &Vec<i64>) -> (r: Option<i64>)
    ensures
        values@.len() == 0 ==> r is None,
        values@.len() > 0 ==> r == Some(mean_of(values@) as i64) && mean_of(values@)
            == r->Some_0 as int,
{
    if values.len() == 0 {
        return None;
    }
    let mut sum: i128 = 0;
    let mut i: usize = 0;
    while i < values.len()
        invariant
            i <= values@.len(),
            sum == sum_of(values@.take(i as int)),
            i64::MIN * i <= sum <= i64::MAX * i,
        decreases values@.len() - i,
    {
        assert(values@.take(i + 1).drop_last() == values@.take(i as int));
        proof {
            lemma_bounded_sum_step(sum as int, values[i as int] as int, i as int);
        }
        sum = sum + values[i] as i128;
        i = i + 1;
    }
    assert(values@.take(i as int) == values@);
    let n = values.len() as i128;
    proof {
        lemma_mean_in_range(sum as int, n as int);
    }
    let mean = sum.checked_div_euclid(n).unwrap();
    Some(mean as i64)
}

} // verus!
