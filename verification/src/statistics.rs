//! A collection of sampled path lengths and the exact integer quantities
//! from which its mean, median and standard deviation follow.

use crate::error::AnalysisError;
use vstd::prelude::*;
use vstd::relations::{sorted_by, total_ordering};

verus! {

/// The sum of a sequence of lengths.
pub open spec fn total(s: Seq<u32>) -> nat
    decreases s.len(),
{
    if s.len() == 0 {
        0
    } else {
        total(s.drop_last()) + s.last() as nat
    }
}

/// The sum of the squares of a sequence of lengths.
pub open spec fn total_squares(s: Seq<u32>) -> nat
    decreases s.len(),
{
    if s.len() == 0 {
        0
    } else {
        total_squares(s.drop_last()) + (s.last() as nat) * (s.last() as nat)
    }
}

/// The sum over `s` of the squares of `n * x - t`: with the count of `s` for
/// `n` and its sum for `t`, the squared deviations from the mean, each scaled
/// by the square of the count.
pub open spec fn scaled_deviations(s: Seq<u32>, n: int, t: int) -> int
    decreases s.len(),
{
    if s.len() == 0 {
        0
    } else {
        scaled_deviations(s.drop_last(), n, t) + (n * s.last() - t) * (n * s.last() - t)
    }
}

/// The order by which lengths are ranked.
pub open spec fn at_most() -> spec_fn(u32, u32) -> bool {
    |a: u32, b: u32| a <= b
}

/// The lengths of `s` in ascending order.
pub open spec fn ascending(s: Seq<u32>) -> Seq<u32> {
    s.sort_by(at_most())
}

/// The value at the middle rank of `s`; for an even count the average of the
/// two middle values, rounded down.
pub open spec fn median_of(s: Seq<u32>) -> nat
    recommends
        s.len() > 0,
{
    let ranked = ascending(s);
    let half = (s.len() / 2) as int;
    if s.len() % 2 == 0 {
        ((ranked[half - 1] + ranked[half]) / 2) as nat
    } else {
        ranked[half] as nat
    }
}

/// The exact quantities behind the reported figures for a non-empty
/// collection of `count` lengths: the mean is `sum / count`, the population
/// variance is `sum_squares / count` less the square of the mean, which is
/// `variance_numerator()` over the square of `count`.
#[derive(Clone, Copy, Debug, PartialEq, Eq, Structural)]
pub struct Summary {
    pub count: usize,
    pub sum: u128,
    pub sum_squares: u128,
    pub median: u32,
}

impl Summary {
    /// Whether the mean is at most `limit`.
    pub open spec fn mean_at_most(&self, limit: nat) -> bool {
        self.sum <= limit * self.count
    }

    /// The population variance times the square of the count.
    pub open spec fn variance_numerator(&self) -> int {
        self.count * self.sum_squares - self.sum * self.sum
    }

    /// Whether the lengths support the small-world hypothesis: a mean of at
    /// most 6.
    pub fn supports_small_world(&self) -> (holds: bool)
        ensures
            holds == self.mean_at_most(6),
    {
        self.sum <= 6 * (self.count as u128)
    }
}

proof fn lemma_scaled_deviations(s: Seq<u32>, n: int, t: int)
    ensures
        scaled_deviations(s, n, t) == n * n * total_squares(s) - 2 * n * t * total(s) + s.len() * t
            * t,
        scaled_deviations(s, n, t) >= 0,
    decreases s.len(),
{
    let q2 = total_squares(s) as int;
    let u2 = total(s) as int;
    let k2 = s.len() as int;
    if s.len() == 0 {
        assert(n * n * q2 - 2 * n * t * u2 + k2 * t * t == 0) by (nonlinear_arith)
            requires
                q2 == 0,
                u2 == 0,
                k2 == 0,
        ;
    } else {
        let rest = s.drop_last();
        let x = s.last() as int;
        lemma_scaled_deviations(rest, n, t);
        let q = total_squares(rest) as int;
        let u = total(rest) as int;
        let k = rest.len() as int;
        let square = (n * x - t) * (n * x - t);
        assert(scaled_deviations(s, n, t) == scaled_deviations(rest, n, t) + square);
        assert(q2 == q + x * x);
        assert(n * n * q - 2 * n * t * u + k * t * t + square == n * n * q2 - 2 * n * t * u2 + k2
            * t * t) by (nonlinear_arith)
            requires
                q2 == q + x * x,
                u2 == u + x,
                k2 == k + 1,
                square == (n * x - t) * (n * x - t),
        ;
        assert(square >= 0) by (nonlinear_arith)
            requires
                square == (n * x - t) * (n * x - t),
        ;
    }
}

/// The population variance, the mean of the squared deviations from the
/// mean, is the count times the sum of squares less the square of the sum,
/// over the square of the count; and it is never negative.
pub proof fn lemma_variance(s: Seq<u32>)
    ensures
        scaled_deviations(s, s.len() as int, total(s) as int) == s.len() * (s.len() * total_squares(
            s,
        ) - total(s) * total(s)),
        s.len() * total_squares(s) >= total(s) * total(s),
        s.len() <= usize::MAX ==> summary_of(s).variance_numerator() == s.len() * total_squares(s)
            - total(s) * total(s),
{
    let n = s.len() as int;
    let t = total(s) as int;
    let q = total_squares(s) as int;
    lemma_scaled_deviations(s, n, t);
    assert(n * n * q - 2 * n * t * t + n * t * t == n * (n * q - t * t)) by (nonlinear_arith);
    if n > 0 {
        assert(n * q - t * t >= 0) by (nonlinear_arith)
            requires
                n > 0,
                n * (n * q - t * t) >= 0,
        ;
    }
    if n <= usize::MAX {
        lemma_total_bounds(s);
    }
}

/// The sums of a sequence that fits a vector fit 128 bits.
pub proof fn lemma_total_bounds(s: Seq<u32>)
    ensures
        total(s) <= s.len() * 0xffff_ffff,
        total_squares(s) <= s.len() * 0xffff_fffe_0000_0001,
    decreases s.len(),
{
    if s.len() > 0 {
        lemma_total_bounds(s.drop_last());
        let x = s.last();
        assert((x as nat) * (x as nat) <= 0xffff_fffe_0000_0001) by (nonlinear_arith)
            requires
                x <= 0xffff_ffff,
        ;
    }
}

/// The summary of a non-empty sequence of lengths.
pub open spec fn summary_of(s: Seq<u32>) -> Summary {
    Summary {
        count: s.len() as usize,
        sum: total(s) as u128,
        sum_squares: total_squares(s) as u128,
        median: median_of(s) as u32,
    }
}

/// The sum of `values`.
pub fn sum_of(values: &Vec<u32>) -> (sum: u128)
    ensures
        sum == total(values@),
        sum <= values@.len() * 0xffff_ffff,
{
    let mut sum: u128 = 0;
    let mut i: usize = 0;
    while i < values.len()
        invariant
            i <= values@.len(),
            sum == total(values@.take(i as int)),
            sum <= i * 0xffff_ffff,
        decreases values@.len() - i,
    {
        proof {
            let next = values@.take(i + 1);
            assert(next.drop_last() == values@.take(i as int));
        }
        sum = sum + values[i] as u128;
        i += 1;
    }
    assert(values@.take(i as int) == values@);
    sum
}

/// Calls `sort_unstable` of the slice, which puts the elements in ascending
/// order and neither adds nor drops any.
#[verifier::external_body]
fn sort_lengths(v: &mut Vec<u32>)
    ensures
        sorted_by(final(v)@, at_most()),
        final(v)@.to_multiset() == old(v)@.to_multiset(),
{
    v.sort_unstable();
}

proof fn lemma_at_most_total()
    ensures
        total_ordering(at_most()),
{
}

/// The sampled path lengths, in the order in which they were added.
pub struct Statistics {
    data: Vec<u32>,
}

impl View for Statistics {
    type V = Seq<u32>;

    closed spec fn view(&self) -> Seq<u32> {
        self.data@
    }
}

impl Statistics {
    /// An empty collection.
    pub fn new() -> (stats: Self)
        ensures
            stats@ == Seq::<u32>::empty(),
    {
        Self { data: Vec::new() }
    }

    /// Appends one path length.
    pub fn add_length(&mut self, length: u32)
        ensures
            final(self)@ == old(self)@.push(length),
    {
        self.data.push(length);
    }

    /// The lengths collected so far, in the order in which they were added.
    pub fn lengths(&self) -> (data: &Vec<u32>)
        ensures
            data@ == self@,
    {
        &self.data
    }

    /// The number of lengths collected so far.
    pub fn len(&self) -> (n: usize)
        ensures
            n == self@.len(),
    {
        self.data.len()
    }

    /// The count, sum, sum of squares and median of the collected lengths;
    /// `EmptySample` when nothing was collected.
    pub fn compute(&self) -> (r: Result<Summary, AnalysisError>)
        ensures
            match r {
                Ok(s) => {
                    &&& self@.len() > 0
                    &&& s == summary_of(self@)
                    &&& s.count == self@.len()
                    &&& s.sum == total(self@)
                    &&& s.sum_squares == total_squares(self@)
                    &&& s.median == median_of(self@)
                },
                Err(e) => self@.len() == 0 && e == AnalysisError::EmptySample,
            },
    {
        let n = self.data.len();
        if n == 0 {
            return Err(AnalysisError::EmptySample);
        }
        let mut sum: u128 = 0;
        let mut sum_squares: u128 = 0;
        let mut sorted: Vec<u32> = Vec::new();
        let mut i: usize = 0;
        while i < n
            invariant
                i <= n,
                n == self.data@.len(),
                sum == total(self.data@.take(i as int)),
                sum_squares == total_squares(self.data@.take(i as int)),
                sum <= i * 0xffff_ffff,
                sum_squares <= i * 0xffff_fffe_0000_0001,
                sorted@ == self.data@.take(i as int),
            decreases n - i,
        {
            let x = self.data[i];
            proof {
                let next = self.data@.take(i + 1);
                assert(next.drop_last() == self.data@.take(i as int));
                assert(next.last() == x);
                assert((x as nat) * (x as nat) <= 0xffff_fffe_0000_0001) by (nonlinear_arith)
                    requires
                        x <= 0xffff_ffff,
                ;
            }
            sum = sum + x as u128;
            sum_squares = sum_squares + (x as u128) * (x as u128);
            sorted.push(x);
            i += 1;
        }
        assert(self.data@.take(n as int) == self.data@);
        sort_lengths(&mut sorted);
        proof {
            lemma_at_most_total();
            self.data@.lemma_sort_by_ensures(at_most());
            vstd::seq_lib::lemma_sorted_unique(sorted@, ascending(self.data@), at_most());
            vstd::seq_lib::to_multiset_len(sorted@);
            vstd::seq_lib::to_multiset_len(self.data@);
        }
        let half = n / 2;
        let median = if n % 2 == 0 {
            ((sorted[half - 1] as u64 + sorted[half] as u64) / 2) as u32
        } else {
            sorted[half]
        };
        Ok(Summary { count: n, sum, sum_squares, median })
    }
}

} // verus!
