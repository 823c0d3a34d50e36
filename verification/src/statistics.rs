//! Order statistics and moments of a sequence of scores.

use vstd::prelude::*;
use vstd::relations::{sorted_by, total_ordering};
use vstd::multiset::group_multiset_axioms;
use vstd::seq_lib::{
    group_to_multiset_ensures, lemma_multiset_commutative, lemma_sorted_unique, to_multiset_build,
    to_multiset_remove,
};

verus! {

/// The order in which scores are sorted: smaller first.
pub open spec fn ascending() -> spec_fn(u64, u64) -> bool {
    |a: u64, b: u64| a <= b
}

/// No element of `s` is larger than one that follows it.
pub open spec fn is_ascending(s: Seq<u64>) -> bool {
    forall|i: int, j: int| 0 <= i <= j < s.len() ==> s[i] <= s[j]
}

/// The elements of `s` in ascending order.
pub open spec fn sorted_copy(s: Seq<u64>) -> Seq<u64> {
    s.sort_by(ascending())
}

/// The sorted copy is ascending and holds each element as often as the
/// sequence it was made from.
pub proof fn lemma_sorted_copy(s: Seq<u64>)
    ensures
        is_ascending(sorted_copy(s)),
        sorted_copy(s).to_multiset() == s.to_multiset(),
        sorted_copy(s).len() == s.len(),
{
    broadcast use group_to_multiset_ensures;

    assert(total_ordering(ascending()));
    s.lemma_sort_by_ensures(ascending());
    let t = sorted_copy(s);
    assert forall|i: int, j: int| 0 <= i <= j < t.len() implies t[i] <= t[j] by {
        if i < j {
            assert(ascending()(t[i], t[j]));
        }
    }
    assert(t.to_multiset().len() == s.to_multiset().len());
}

/// An ascending sequence with the elements of `s` is the sorted copy of `s`.
pub proof fn lemma_sorted_copy_unique(s: Seq<u64>, t: Seq<u64>)
    requires
        is_ascending(t),
        t.to_multiset() == s.to_multiset(),
    ensures
        t == sorted_copy(s),
{
    assert(total_ordering(ascending()));
    s.lemma_sort_by_ensures(ascending());
    assert(sorted_by(t, ascending()));
    lemma_sorted_unique(t, sorted_copy(s), ascending());
}

/// The elements of `v` from `lo` up to `hi`.
fn copy_range(v: &Vec<u64>, lo: usize, hi: usize) -> (out: Vec<u64>)
    requires
        lo <= hi <= v.len(),
    ensures
        out@ == v@.subrange(lo as int, hi as int),
{
    let mut out: Vec<u64> = Vec::new();
    let mut i: usize = lo;
    while i < hi
        invariant
            lo <= i <= hi <= v.len(),
            out@ == v@.subrange(lo as int, i as int),
        decreases hi - i,
    {
        out.push(v[i]);
        i = i + 1;
        assert(out@ == v@.subrange(lo as int, i as int));
    }
    out
}

/// Merges two ascending vectors into one.
fn merge(a: &Vec<u64>, b: &Vec<u64>) -> (out: Vec<u64>)
    requires
        is_ascending(a@),
        is_ascending(b@),
        a.len() + b.len() <= usize::MAX,
    ensures
        is_ascending(out@),
        out@.to_multiset() == a@.to_multiset().add(b@.to_multiset()),
{
    broadcast use group_to_multiset_ensures, group_multiset_axioms;

    let mut out: Vec<u64> = Vec::new();
    let mut i: usize = 0;
    let mut j: usize = 0;
    assert(a@.subrange(0, 0) == Seq::<u64>::empty());
    assert(b@.subrange(0, 0) == Seq::<u64>::empty());
    assert(out@.to_multiset() == a@.subrange(0, 0).to_multiset().add(
        b@.subrange(0, 0).to_multiset(),
    ));
    while i < a.len() || j < b.len()
        invariant
            i <= a.len(),
            j <= b.len(),
            a.len() + b.len() <= usize::MAX,
            is_ascending(a@),
            is_ascending(b@),
            is_ascending(out@),
            out.len() == i + j,
            forall|k: int| 0 <= k < out.len() && i < a.len() ==> out@[k] <= a@[i as int],
            forall|k: int| 0 <= k < out.len() && j < b.len() ==> out@[k] <= b@[j as int],
            out@.to_multiset() == a@.subrange(0, i as int).to_multiset().add(
                b@.subrange(0, j as int).to_multiset(),
            ),
        decreases a.len() - i + (b.len() - j),
    {
        let take_left: bool = if i < a.len() && j < b.len() {
            a[i] <= b[j]
        } else {
            i < a.len()
        };
        let ghost before = out@;
        let ghost left = a@.subrange(0, i as int);
        let ghost right = b@.subrange(0, j as int);
        if take_left {
            proof {
                assert(a@.subrange(0, i + 1) == left.push(a@[i as int]));
                to_multiset_build(left, a@[i as int]);
                to_multiset_build(before, a@[i as int]);
                assert(before.to_multiset().insert(a@[i as int]) =~= left.to_multiset().insert(
                    a@[i as int],
                ).add(right.to_multiset()));
            }
            out.push(a[i]);
            i = i + 1;
        } else {
            proof {
                assert(b@.subrange(0, j + 1) == right.push(b@[j as int]));
                to_multiset_build(right, b@[j as int]);
                to_multiset_build(before, b@[j as int]);
                assert(before.to_multiset().insert(b@[j as int]) =~= left.to_multiset().add(
                    right.to_multiset().insert(b@[j as int]),
                ));
            }
            out.push(b[j]);
            j = j + 1;
        }
    }
    assert(a@.subrange(0, i as int) == a@);
    assert(b@.subrange(0, j as int) == b@);
    out
}

/// A copy of `v` in ascending order.
pub fn sort_scores(v: &Vec<u64>) -> (out: Vec<u64>)
    ensures
        out@ == sorted_copy(v@),
    decreases v.len(),
{
    broadcast use group_to_multiset_ensures;

    let n: usize = v.len();
    if n <= 1 {
        let out = copy_range(v, 0, n);
        proof {
            assert(out@ == v@);
            lemma_sorted_copy_unique(v@, out@);
        }
        out
    } else {
        let mid: usize = n / 2;
        let left = copy_range(v, 0, mid);
        let right = copy_range(v, mid, n);
        let left_sorted = sort_scores(&left);
        let right_sorted = sort_scores(&right);
        proof {
            lemma_sorted_copy(left@);
            lemma_sorted_copy(right@);
        }
        let out = merge(&left_sorted, &right_sorted);
        proof {
            assert(v@ == left@ + right@);
            lemma_multiset_commutative(left@, right@);
            lemma_sorted_copy_unique(v@, out@);
        }
        out
    }
}

/// Every element of `s` is at most `bound`.
pub open spec fn all_within(s: Seq<u64>, bound: u64) -> bool {
    forall|i: int| 0 <= i < s.len() ==> s[i] <= bound
}

/// The sum of the elements of `s`.
pub open spec fn total(s: Seq<u64>) -> int
    decreases s.len(),
{
    if s.len() == 0 {
        0
    } else {
        total(s.drop_last()) + s.last()
    }
}

/// The arithmetic mean of `s`, rounded down; zero for the empty sequence.
pub open spec fn mean(s: Seq<u64>) -> int {
    if s.len() == 0 {
        0
    } else {
        total(s) / (s.len() as int)
    }
}

/// The sum of the squared distances of the elements of `s` from `center`.
pub open spec fn squared_deviations(s: Seq<u64>, center: int) -> int
    decreases s.len(),
{
    if s.len() == 0 {
        0
    } else {
        squared_deviations(s.drop_last(), center) + (s.last() - center) * (s.last() - center)
    }
}

/// The population variance of `s` about its mean: the squared deviations
/// divided by the number of elements, not by one less, and rounded down.
pub open spec fn variance(s: Seq<u64>) -> int {
    if s.len() == 0 {
        0
    } else {
        squared_deviations(s, mean(s)) / (s.len() as int)
    }
}

/// The rank, in a sorted sample of `n` elements, of the quantile at `percent`
/// in a hundred: `n * percent / 100` rounded down, and at most `n - 1`.
pub open spec fn quantile_rank(n: int, percent: int) -> int {
    let rank = n * percent / 100;
    if rank >= n {
        n - 1
    } else {
        rank
    }
}

/// The empirical quantile of `s` at `percent` in a hundred.
pub open spec fn quantile(s: Seq<u64>, percent: int) -> u64 {
    sorted_copy(s)[quantile_rank(s.len() as int, percent)]
}

/// The largest element of `s`: the last of its sorted copy.
pub open spec fn maximum(s: Seq<u64>) -> u64 {
    sorted_copy(s).last()
}

/// Whether `x` lies strictly beyond `threshold`: above it, or else below it.
pub open spec fn beyond(x: u64, threshold: u64, above: bool) -> bool {
    if above {
        x > threshold
    } else {
        x < threshold
    }
}

/// How many elements of `s` lie strictly beyond `threshold`.
pub open spec fn count_beyond(s: Seq<u64>, threshold: u64, above: bool) -> int
    decreases s.len(),
{
    if s.len() == 0 {
        0
    } else {
        count_beyond(s.drop_last(), threshold, above) + if beyond(s.last(), threshold, above) {
            1int
        } else {
            0int
        }
    }
}

/// How many elements of `s` are strictly greater than `threshold`.
pub open spec fn exceedances(s: Seq<u64>, threshold: u64) -> int {
    count_beyond(s, threshold, true)
}

/// How many elements of `s` are strictly smaller than `threshold`.
pub open spec fn shortfalls(s: Seq<u64>, threshold: u64) -> int {
    count_beyond(s, threshold, false)
}

/// The sum of a sequence within `bound` is at most its length times `bound`.
pub proof fn lemma_total_bounds(s: Seq<u64>, bound: u64)
    requires
        all_within(s, bound),
    ensures
        0 <= total(s) <= s.len() * bound,
    decreases s.len(),
{
    if s.len() > 0 {
        lemma_total_bounds(s.drop_last(), bound);
        assert((s.len() - 1) * bound + bound == s.len() * bound) by (nonlinear_arith);
    } else {
        assert(s.len() * bound == 0) by (nonlinear_arith)
            requires
                s.len() == 0,
        ;
    }
}

/// The mean of a sequence within `bound` is within `bound`.
pub proof fn lemma_mean_bounds(s: Seq<u64>, bound: u64)
    requires
        all_within(s, bound),
    ensures
        0 <= mean(s) <= bound,
{
    if s.len() > 0 {
        lemma_total_bounds(s, bound);
        let n = s.len() as int;
        let t = total(s);
        assert(0 <= t / n <= bound) by (nonlinear_arith)
            requires
                0 <= t <= n * bound,
                n > 0,
        ;
    }
}

/// The squared deviations of a sequence within `bound` from a center within
/// `bound` are at most the length times the square of `bound`.
pub proof fn lemma_squared_deviations_bounds(s: Seq<u64>, center: int, bound: u64)
    requires
        all_within(s, bound),
        0 <= center <= bound,
    ensures
        0 <= squared_deviations(s, center) <= s.len() * (bound * bound),
    decreases s.len(),
{
    if s.len() > 0 {
        lemma_squared_deviations_bounds(s.drop_last(), center, bound);
        let d = s.last() - center;
        let b = bound as int;
        assert(0 <= d * d <= b * b) by (nonlinear_arith)
            requires
                -b <= d <= b,
        ;
        assert((s.len() - 1) * (b * b) + b * b == s.len() * (b * b)) by (nonlinear_arith);
    } else {
        assert(s.len() * (bound * bound) == 0) by (nonlinear_arith)
            requires
                s.len() == 0,
        ;
    }
}

/// The variance of a sequence within `bound` is at most the square of `bound`.
pub proof fn lemma_variance_bounds(s: Seq<u64>, bound: u64)
    requires
        all_within(s, bound),
    ensures
        0 <= variance(s) <= bound * bound,
{
    if s.len() > 0 {
        lemma_mean_bounds(s, bound);
        lemma_squared_deviations_bounds(s, mean(s), bound);
        let n = s.len() as int;
        let q = squared_deviations(s, mean(s));
        let bb = bound * bound;
        assert(0 <= q / n <= bb) by (nonlinear_arith)
            requires
                0 <= q <= n * bb,
                n > 0,
        ;
    } else {
        assert(0 <= bound * bound) by (nonlinear_arith);
    }
}

/// The number of elements beyond a threshold lies between zero and the
/// length.
pub proof fn lemma_count_beyond_bounds(s: Seq<u64>, threshold: u64, above: bool)
    ensures
        0 <= count_beyond(s, threshold, above) <= s.len(),
    decreases s.len(),
{
    if s.len() > 0 {
        lemma_count_beyond_bounds(s.drop_last(), threshold, above);
    }
}

/// The number of exceedances lies between zero and the length.
pub proof fn lemma_exceedances_bounds(s: Seq<u64>, threshold: u64)
    ensures
        0 <= exceedances(s, threshold) <= s.len(),
{
    lemma_count_beyond_bounds(s, threshold, true);
}

/// Where no element lies beyond the threshold, the count is zero.
pub proof fn lemma_count_beyond_none(s: Seq<u64>, threshold: u64, above: bool)
    requires
        forall|i: int| 0 <= i < s.len() ==> !beyond(s[i], threshold, above),
    ensures
        count_beyond(s, threshold, above) == 0,
    decreases s.len(),
{
    if s.len() > 0 {
        assert forall|i: int| 0 <= i < s.drop_last().len() implies !beyond(
            s.drop_last()[i],
            threshold,
            above,
        ) by {
            assert(s.drop_last()[i] == s[i]);
        }
        lemma_count_beyond_none(s.drop_last(), threshold, above);
        assert(!beyond(s[s.len() - 1], threshold, above));
    }
}

/// The count of a sequence is the count of its first `k` elements plus the
/// count of the rest.
pub proof fn lemma_count_beyond_split(s: Seq<u64>, threshold: u64, above: bool, k: int)
    requires
        0 <= k <= s.len(),
    ensures
        count_beyond(s, threshold, above) == count_beyond(s.subrange(0, k), threshold, above)
            + count_beyond(s.subrange(k, s.len() as int), threshold, above),
    decreases s.len(),
{
    let n = s.len() as int;
    if k == n {
        assert(s.subrange(0, k) == s);
        assert(s.subrange(k, n).len() == 0);
    } else {
        let rest = s.drop_last();
        lemma_count_beyond_split(rest, threshold, above, k);
        assert(rest.subrange(0, k) == s.subrange(0, k));
        assert(s.subrange(k, n).drop_last() == rest.subrange(k, n - 1));
        assert(s.subrange(k, n).last() == s.last());
    }
}

/// Taking one element out lowers the count by one if the element lies
/// beyond the threshold, and else leaves it.
pub proof fn lemma_count_beyond_remove(s: Seq<u64>, threshold: u64, above: bool, i: int)
    requires
        0 <= i < s.len(),
    ensures
        count_beyond(s, threshold, above) == count_beyond(s.remove(i), threshold, above) + if beyond(
            s[i],
            threshold,
            above,
        ) {
            1int
        } else {
            0int
        },
    decreases s.len(),
{
    if i == s.len() - 1 {
        assert(s.remove(i) == s.drop_last());
    } else {
        lemma_count_beyond_remove(s.drop_last(), threshold, above, i);
        assert(s.drop_last().remove(i) == s.remove(i).drop_last());
        assert(s.remove(i).last() == s.last());
        assert(s.drop_last()[i] == s[i]);
    }
}

/// The count does not depend on the order of the elements.
pub proof fn lemma_count_beyond_permutation(
    a: Seq<u64>,
    b: Seq<u64>,
    threshold: u64,
    above: bool,
)
    requires
        a.to_multiset() == b.to_multiset(),
    ensures
        count_beyond(a, threshold, above) == count_beyond(b, threshold, above),
    decreases a.len(),
{
    broadcast use group_to_multiset_ensures;

    assert(a.to_multiset().len() == b.to_multiset().len());
    if a.len() > 0 {
        let x = a.last();
        let last = a.len() - 1;
        assert(a.to_multiset().contains(a[last]));
        assert(b.to_multiset().contains(x));
        assert(b.contains(x));
        let j = choose|j: int| 0 <= j < b.len() && b[j] == x;
        to_multiset_remove(a, last);
        to_multiset_remove(b, j);
        assert(a.remove(last) == a.drop_last());
        assert(a.drop_last().to_multiset() == b.remove(j).to_multiset());
        lemma_count_beyond_permutation(a.drop_last(), b.remove(j), threshold, above);
        lemma_count_beyond_remove(b, threshold, above, j);
    } else {
        assert(a.len() == a.to_multiset().len());
        assert(b.len() == b.to_multiset().len());
        assert(b.len() == 0);
    }
}

/// Where every element lies beyond the threshold, the count is the length.
pub proof fn lemma_count_beyond_all(s: Seq<u64>, threshold: u64, above: bool)
    requires
        forall|i: int| 0 <= i < s.len() ==> beyond(s[i], threshold, above),
    ensures
        count_beyond(s, threshold, above) == s.len(),
    decreases s.len(),
{
    if s.len() > 0 {
        assert forall|i: int| 0 <= i < s.drop_last().len() implies beyond(
            s.drop_last()[i],
            threshold,
            above,
        ) by {
            assert(s.drop_last()[i] == s[i]);
        }
        lemma_count_beyond_all(s.drop_last(), threshold, above);
        assert(beyond(s[s.len() - 1], threshold, above));
    }
}

/// The quantile splits the sample at its rank: no more elements than the
/// rank lie strictly below it, and no more than follow the rank lie strictly
/// above it.
pub proof fn lemma_quantile_splits(s: Seq<u64>, percent: int)
    requires
        s.len() > 0,
        0 <= percent,
    ensures
        shortfalls(s, quantile(s, percent)) <= quantile_rank(s.len() as int, percent),
        exceedances(s, quantile(s, percent)) <= s.len() - 1 - quantile_rank(s.len() as int, percent),
{
    let n = s.len() as int;
    let rank = quantile_rank(n, percent);
    let sorted = sorted_copy(s);
    let value = quantile(s, percent);
    lemma_sorted_copy(s);
    lemma_quantile_rank(n, percent, percent);
    lemma_count_beyond_permutation(s, sorted, value, true);
    lemma_count_beyond_permutation(s, sorted, value, false);
    // Nothing up to the rank lies above the value, nothing from the rank on below it.
    lemma_count_beyond_split(sorted, value, true, rank + 1);
    lemma_count_beyond_none(sorted.subrange(0, rank + 1), value, true);
    lemma_count_beyond_bounds(sorted.subrange(rank + 1, n), value, true);
    lemma_count_beyond_split(sorted, value, false, rank);
    lemma_count_beyond_none(sorted.subrange(rank, n), value, false);
    lemma_count_beyond_bounds(sorted.subrange(0, rank), value, false);
}

/// The rank of a quantile lies inside the sample, and a higher quantile has
/// an equal or higher rank.
pub proof fn lemma_quantile_rank(n: int, lower: int, higher: int)
    requires
        n > 0,
        0 <= lower <= higher,
    ensures
        0 <= quantile_rank(n, lower) <= quantile_rank(n, higher) < n,
{
    assert(0 <= n * lower / 100 <= n * higher / 100) by (nonlinear_arith)
        requires
            n > 0,
            0 <= lower <= higher,
    ;
}

/// Only the quantile splits the sample at its rank: a value with no more
/// elements than the rank strictly below it, and no more than follow the
/// rank strictly above it, is the quantile.
pub proof fn lemma_quantile_unique(s: Seq<u64>, percent: int, value: u64)
    requires
        s.len() > 0,
        0 <= percent,
        shortfalls(s, value) <= quantile_rank(s.len() as int, percent),
        exceedances(s, value) <= s.len() - 1 - quantile_rank(s.len() as int, percent),
    ensures
        value == quantile(s, percent),
{
    let n = s.len() as int;
    let rank = quantile_rank(n, percent);
    let sorted = sorted_copy(s);
    lemma_sorted_copy(s);
    lemma_quantile_rank(n, percent, percent);
    lemma_count_beyond_permutation(s, sorted, value, true);
    lemma_count_beyond_permutation(s, sorted, value, false);
    if sorted[rank] < value {
        // The elements up to the rank all lie below the value.
        lemma_count_beyond_split(sorted, value, false, rank + 1);
        lemma_count_beyond_all(sorted.subrange(0, rank + 1), value, false);
        lemma_count_beyond_bounds(sorted.subrange(rank + 1, n), value, false);
    } else if sorted[rank] > value {
        // The elements from the rank on all lie above the value.
        lemma_count_beyond_split(sorted, value, true, rank);
        lemma_count_beyond_all(sorted.subrange(rank, n), value, true);
        lemma_count_beyond_bounds(sorted.subrange(0, rank), value, true);
    }
}

/// The sum of the elements of `v`.
pub fn sum_scores(v: &Vec<u64>) -> (sum: u128)
    ensures
        sum == total(v@),
{
    let mut sum: u128 = 0;
    let mut i: usize = 0;
    assert(v@.subrange(0, 0) == Seq::<u64>::empty());
    while i < v.len()
        invariant
            i <= v.len(),
            sum == total(v@.subrange(0, i as int)),
            sum <= i * 0xffff_ffff_ffff_ffff,
        decreases v.len() - i,
    {
        proof {
            assert(v@.subrange(0, i + 1).drop_last() == v@.subrange(0, i as int));
            assert((i + 1) * 0xffff_ffff_ffff_ffff <= 0xffff_ffff_ffff_ffff
                * 0xffff_ffff_ffff_ffff) by (nonlinear_arith)
                requires
                    i + 1 <= 0xffff_ffff_ffff_ffff,
            ;
        }
        sum = sum + v[i] as u128;
        i = i + 1;
    }
    assert(v@.subrange(0, i as int) == v@);
    sum
}

/// The sum of the squared distances of the elements of `v` from `center`.
pub fn sum_squared_deviations(v: &Vec<u64>, center: u64) -> (sum: u128)
    requires
        all_within(v@, 0xffff_ffff),
        center <= 0xffff_ffff,
    ensures
        sum == squared_deviations(v@, center as int),
{
    let mut sum: u128 = 0;
    let mut i: usize = 0;
    assert(v@.subrange(0, 0) == Seq::<u64>::empty());
    while i < v.len()
        invariant
            i <= v.len(),
            all_within(v@, 0xffff_ffff),
            center <= 0xffff_ffff,
            sum == squared_deviations(v@.subrange(0, i as int), center as int),
            sum <= i * 0xffff_ffff_ffff_ffff,
        decreases v.len() - i,
    {
        let x: u64 = v[i];
        let d: u64 = if x >= center {
            x - center
        } else {
            center - x
        };
        proof {
            assert(v@.subrange(0, i + 1).drop_last() == v@.subrange(0, i as int));
            assert(d * d == (x - center) * (x - center) && d * d <= 0xffff_ffff_ffff_ffff)
                by (nonlinear_arith)
                requires
                    d == x - center || d == center - x,
                    0 <= d <= 0xffff_ffff,
            ;
            assert((i + 1) * 0xffff_ffff_ffff_ffff <= 0xffff_ffff_ffff_ffff
                * 0xffff_ffff_ffff_ffff) by (nonlinear_arith)
                requires
                    i + 1 <= 0xffff_ffff_ffff_ffff,
            ;
        }
        sum = sum + (d * d) as u128;
        i = i + 1;
    }
    assert(v@.subrange(0, i as int) == v@);
    sum
}

/// The rank of the quantile at `percent` in a hundred in a sorted sample of
/// `n` elements.
pub fn quantile_index(n: usize, percent: u8) -> (rank: usize)
    requires
        n > 0,
    ensures
        rank == quantile_rank(n as int, percent as int),
        rank < n,
{
    assert(n * percent <= 0xffff_ffff_ffff_ffff * 255) by (nonlinear_arith)
        requires
            n <= 0xffff_ffff_ffff_ffff,
            percent <= 255,
    ;
    let rank: u128 = (n as u128) * (percent as u128) / 100;
    if rank >= n as u128 {
        n - 1
    } else {
        rank as usize
    }
}

/// How many elements of `v` are strictly greater than `threshold`.
pub fn count_exceedances(v: &Vec<u64>, threshold: u64) -> (count: usize)
    ensures
        count == exceedances(v@, threshold),
        count <= v.len(),
{
    let mut count: usize = 0;
    let mut i: usize = 0;
    assert(v@.subrange(0, 0) == Seq::<u64>::empty());
    while i < v.len()
        invariant
            i <= v.len(),
            count <= i,
            count == exceedances(v@.subrange(0, i as int), threshold),
        decreases v.len() - i,
    {
        assert(v@.subrange(0, i + 1).drop_last() == v@.subrange(0, i as int));
        if v[i] > threshold {
            count = count + 1;
        }
        i = i + 1;
    }
    assert(v@.subrange(0, i as int) == v@);
    count
}

} // verus!
