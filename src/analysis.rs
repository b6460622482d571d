//! Analysis of pseudorandom streams.
//!
//! A [`Report`] summarises one sample of a stream; a [`Score`] rates a report.
use std::collections::HashSet;

use vstd::prelude::*;

use crate::Random;

verus! {

broadcast use vstd::std_specs::hash::group_hash_axioms;

/// Number of values sampled per report, after the anchor draw.
pub const SAMPLE_SIZE: u32 = 65536;

/// Number of bit positions of a value.
pub const BITS: u64 = 64;

/// Number of cells of the dependency matrix, one per ordered pair of bit positions.
pub const CELLS: usize = 4096;

/// Number of buckets of the distribution histogram; a value lands in bucket `value % BUCKETS`.
pub const BUCKETS: u64 = 4096;

/// The bucket count that the distribution score takes as ideal: the sample size spread
/// evenly over the buckets, `SAMPLE_SIZE / BUCKETS`. The scoring reads it from here alone.
pub const DISTRIBUTION_IDEAL: i64 = 16;

/// Whether "bit `x` is clear implies bit `y` is clear" holds of `v`.
pub open spec fn dependency_holds(v: u64, x: u64, y: u64) -> bool {
    (v & (1u64 << x)) == 0 ==> (v & (1u64 << y)) == 0
}

/// How many of the first `n` values of `s` satisfy the implication of cell `c` of the
/// dependency matrix, the cell of bit `c / 64` and bit `c % 64`.
pub open spec fn dependency_count(s: Seq<u64>, c: int, n: nat) -> nat
    decreases n,
{
    if n == 0 {
        0
    } else {
        dependency_count(s, c, (n - 1) as nat) + if dependency_holds(
            s[n - 1],
            (c / 64) as u64,
            (c % 64) as u64,
        ) {
            1nat
        } else {
            0nat
        }
    }
}

/// How many of the first `n` values of `s` fall into bucket `b`.
pub open spec fn bucket_count(s: Seq<u64>, b: int, n: nat) -> nat
    decreases n,
{
    if n == 0 {
        0
    } else {
        bucket_count(s, b, (n - 1) as nat) + if s[n - 1] % 4096 == b {
            1nat
        } else {
            0nat
        }
    }
}

/// Whether the value at index `i` of `s` already occurs before it.
pub open spec fn repeats_earlier(s: Seq<u64>, i: int) -> bool {
    exists|j: int| 0 <= j < i && s[j] == s[i]
}

/// How many of the first `n` values of `s` repeat an earlier value.
pub open spec fn collision_count(s: Seq<u64>, n: nat) -> nat
    decreases n,
{
    if n == 0 {
        0
    } else {
        collision_count(s, (n - 1) as nat) + if repeats_earlier(s, n - 1) {
            1nat
        } else {
            0nat
        }
    }
}

/// The first index below `n` at which `v` occurs in `s`, if any.
pub open spec fn first_index_of(s: Seq<u64>, v: u64, n: nat) -> Option<nat>
    decreases n,
{
    if n == 0 {
        None
    } else {
        match first_index_of(s, v, (n - 1) as nat) {
            Some(k) => Some(k),
            None => if s[n - 1] == v {
                Some((n - 1) as nat)
            } else {
                None
            },
        }
    }
}

/// The statistics of a report, as mathematical values.
pub struct ReportView {
    /// The index in the sample at which the anchor value first recurs, if it does.
    pub cycle_length: Option<nat>,
    /// The number of sampled values that repeat an earlier one.
    pub collisions: nat,
    /// Cell `x * 64 + y` counts the values of which "bit `x` clear implies bit `y` clear" holds.
    pub dependency_matrix: Seq<nat>,
    /// Bucket `i` counts the values equal to `i` modulo 4096.
    pub distribution: Seq<nat>,
}

/// The statistics of the sample `s`, whose anchor was drawn just before it.
pub open spec fn report_of(anchor: u64, s: Seq<u64>) -> ReportView {
    ReportView {
        cycle_length: first_index_of(s, anchor, s.len()),
        collisions: collision_count(s, s.len()),
        dependency_matrix: Seq::new(CELLS as nat, |c: int| dependency_count(s, c, s.len())),
        distribution: Seq::new(BUCKETS as nat, |b: int| bucket_count(s, b, s.len())),
    }
}

/// The sample that a report on `rand` is made of: the draws that follow the anchor draw.
pub open spec fn sample_of<R: Random>(rand: R) -> Seq<u64> {
    Seq::new(SAMPLE_SIZE as nat, |i: int| rand.upcoming((i + 1) as nat))
}

/// The report that [`Report::new`] makes of `rand`.
pub open spec fn report_of_source<R: Random>(rand: R) -> ReportView {
    report_of(rand.upcoming(0), sample_of(rand))
}

/// A analysis report extracted from some stream.
pub struct Report {
    /// The index in which the first number is returned again, if it is.
    cycle_length: Option<u32>,
    /// The number of colliding numbers found in the sample of the stream.
    collisions: u32,
    /// The bit dependency matrix, row by row: cell `x * 64 + y` counts how often bit `x`
    /// clear implied bit `y` clear.
    dependency_matrix: Vec<u32>,
    /// The distribution of the sample, modulo 4096.
    distribution: Vec<u32>,
}

impl View for Report {
    type V = ReportView;

    closed spec fn view(&self) -> ReportView {
        ReportView {
            cycle_length: match self.cycle_length {
                Some(k) => Some(k as nat),
                None => None,
            },
            collisions: self.collisions as nat,
            dependency_matrix: Seq::new(
                self.dependency_matrix@.len(),
                |c: int| self.dependency_matrix@[c] as nat,
            ),
            distribution: Seq::new(
                self.distribution@.len(),
                |b: int| self.distribution@[b] as nat,
            ),
        }
    }
}

impl Report {
    /// The matrix and the histogram have their full sizes.
    pub open spec fn wf(&self) -> bool {
        &&& self@.dependency_matrix.len() == CELLS
        &&& self@.distribution.len() == BUCKETS
    }
}

/// A vector of `n` zeros.
fn zeros(n: usize) -> (r: Vec<u32>)
    ensures
        r@ == Seq::new(n as nat, |i: int| 0u32),
{
    let mut r: Vec<u32> = Vec::new();
    while r.len() < n
        invariant
            r.len() <= n,
            forall|i: int| 0 <= i < r.len() ==> r@[i] == 0u32,
        decreases n - r.len(),
    {
        r.push(0);
    }
    assert(r@ =~= Seq::new(n as nat, |i: int| 0u32));
    r
}

impl Default for Report {
    /// The report of an empty sample.
    fn default() -> (r: Report)
        ensures
            r.wf(),
            r@ == report_of(0, Seq::empty()),
    {
        let r = Report {
            cycle_length: None,
            collisions: 0,
            dependency_matrix: zeros(CELLS),
            distribution: zeros(BUCKETS as usize),
        };
        assert(r@.dependency_matrix =~= report_of(0, Seq::empty()).dependency_matrix);
        assert(r@.distribution =~= report_of(0, Seq::empty()).distribution);
        r
    }
}


/// Add one to each cell of the dependency matrix whose implication holds of `v`.
fn record_dependencies(matrix: &mut Vec<u32>, v: u64)
    requires
        old(matrix)@.len() == CELLS,
        forall|c: int| 0 <= c < CELLS ==> old(matrix)@[c] < u32::MAX,
    ensures
        final(matrix)@.len() == CELLS,
        forall|c: int|
            0 <= c < CELLS ==> #[trigger] final(matrix)@[c] == old(matrix)@[c] + if dependency_holds(
                v,
                (c / 64) as u64,
                (c % 64) as u64,
            ) {
                1int
            } else {
                0int
            },
{
    let ghost before = matrix@;
    let mut x: u64 = 0;
    while x < BITS
        invariant
            x <= BITS,
            before.len() == CELLS,
            forall|c: int| 0 <= c < CELLS ==> before[c] < u32::MAX,
            matrix@.len() == CELLS,
            forall|c: int|
                0 <= c < x * 64 ==> #[trigger] matrix@[c] == before[c] + if dependency_holds(
                    v,
                    (c / 64) as u64,
                    (c % 64) as u64,
                ) {
                    1int
                } else {
                    0int
                },
            forall|c: int| x * 64 <= c < CELLS ==> #[trigger] matrix@[c] == before[c],
        decreases BITS - x,
    {
        let mut y: u64 = 0;
        while y < BITS
            invariant
                x < BITS,
                y <= BITS,
                before.len() == CELLS,
                forall|c: int| 0 <= c < CELLS ==> before[c] < u32::MAX,
                matrix@.len() == CELLS,
                forall|c: int|
                    0 <= c < x * 64 + y ==> #[trigger] matrix@[c] == before[c] + if dependency_holds(
                        v,
                        (c / 64) as u64,
                        (c % 64) as u64,
                    ) {
                        1int
                    } else {
                        0int
                    },
                forall|c: int| x * 64 + y <= c < CELLS ==> #[trigger] matrix@[c] == before[c],
            decreases BITS - y,
        {
            assert(x * 64 + y < 4096) by (nonlinear_arith)
                requires
                    x < 64,
                    y < 64,
            ;
            let idx = (x * 64 + y) as usize;
            assert((idx as int) / 64 == x && (idx as int) % 64 == y) by (nonlinear_arith)
                requires
                    idx == x * 64 + y,
                    y < 64,
            ;
            let holds = (v & (1u64 << x)) != 0 || (v & (1u64 << y)) == 0;
            let cell = matrix[idx];
            if holds {
                matrix.set(idx, cell + 1);
            }
            y = y + 1;
        }
        x = x + 1;
    }
}

impl Report {
    /// Investigate a random stream and create a report.
    ///
    /// One value is drawn as the anchor, then `SAMPLE_SIZE` more make up the sample.
    pub fn new<R: Random>(rand: R) -> (r: Report)
        ensures
            r.wf(),
            r@ == report_of_source(rand),
    {
        let ghost rand0 = rand;
        let ghost s = sample_of(rand0);
        let mut rand = rand;
        let mut cycle_length: Option<u32> = None;
        let mut collisions: u32 = 0;
        let mut dependency_matrix = zeros(CELLS);
        let mut distribution = zeros(BUCKETS as usize);
        let mut set: HashSet<u64> = HashSet::new();

        let start = rand.get_random();
        let mut n: u32 = 0;
        while n < SAMPLE_SIZE
            invariant
                n <= SAMPLE_SIZE,
                s == sample_of(rand0),
                start == rand0.upcoming(0),
                forall|i: nat| #[trigger] rand.upcoming(i) == rand0.upcoming((i + n + 1) as nat),
                dependency_matrix@.len() == CELLS,
                forall|c: int|
                    0 <= c < CELLS ==> #[trigger] dependency_matrix@[c] as nat == dependency_count(
                        s,
                        c,
                        n as nat,
                    ) && dependency_matrix@[c] <= n,
                distribution@.len() == BUCKETS,
                forall|b: int|
                    0 <= b < BUCKETS ==> #[trigger] distribution@[b] as nat == bucket_count(
                        s,
                        b,
                        n as nat,
                    ) && distribution@[b] <= n,
                collisions as nat == collision_count(s, n as nat),
                collisions <= n,
                match cycle_length {
                    Some(k) => first_index_of(s, start, n as nat) == Some(k as nat),
                    None => first_index_of(s, start, n as nat) is None,
                },
                set@ == Set::new(|v: u64| exists|j: int| 0 <= j < n && s[j] == v),
            decreases SAMPLE_SIZE - n,
        {
            let r = rand.get_random();
            assert(r == s[n as int]) by {
                assert(0 + n + 1 == n as int + 1);
            }

            // Update the bit dependency matrix.
            let ghost matrix_before = dependency_matrix@;
            record_dependencies(&mut dependency_matrix, r);
            assert forall|c: int| 0 <= c < CELLS implies #[trigger] dependency_matrix@[c] as nat
                == dependency_count(s, c, (n + 1) as nat) && dependency_matrix@[c] <= n + 1 by {
                assert(matrix_before[c] as nat == dependency_count(s, c, n as nat));
            }

            // Increment the distribution entry.
            let bucket = (r % BUCKETS) as usize;
            let count = distribution[bucket];
            distribution.set(bucket, count + 1);
            assert forall|b: int| 0 <= b < BUCKETS implies #[trigger] distribution@[b] as nat
                == bucket_count(s, b, (n + 1) as nat) && distribution@[b] <= n + 1 by {
                assert(bucket_count(s, b, (n + 1) as nat) == bucket_count(s, b, n as nat) + if s[n
                    as int] % 4096 == b {
                    1nat
                } else {
                    0nat
                });
            }

            // If it returned to the first number, set the cycle length.
            if cycle_length.is_none() && r == start {
                cycle_length = Some(n);
            }

            // Insert the number into the set and count a collision when it was there already.
            let ghost set_before = set@;
            let fresh = set.insert(r);
            if !fresh {
                collisions = collisions + 1;
            }
            assert(repeats_earlier(s, n as int) == set_before.contains(r));
            assert(set@ =~= Set::new(|v: u64| exists|j: int| 0 <= j < n + 1 && s[j] == v)) by {
                assert forall|v: u64|
                    (exists|j: int| 0 <= j < n + 1 && s[j] == v) implies set@.contains(v) by {
                    let j = choose|j: int| 0 <= j < n + 1 && s[j] == v;
                    if j < n {
                        assert(set_before.contains(v));
                    }
                }
            }
            n = n + 1;
        }
        let report = Report { cycle_length, collisions, dependency_matrix, distribution };
        assert(report@.dependency_matrix =~= report_of_source(rand0).dependency_matrix);
        assert(report@.distribution =~= report_of_source(rand0).distribution);
        report
    }
}


/// Points for a deviation `d` of the dependency matrix from its ideal value, where `top` is
/// what the smallest deviations earn.
pub open spec fn dependency_band(d: int, top: nat) -> nat {
    if 0 <= d <= 4 {
        top
    } else if 5 <= d <= 6 {
        126
    } else if 7 <= d <= 16 {
        120
    } else if 17 <= d <= 32 {
        90
    } else if 33 <= d <= 64 {
        50
    } else if 65 <= d <= 80 {
        20
    } else {
        0
    }
}

/// Points for a deviation `d` of a histogram bucket from its ideal count, where `top` is
/// what the smallest deviations earn.
pub open spec fn distribution_band(d: int, top: nat) -> nat {
    if 0 <= d <= 4 {
        top
    } else if 5 <= d <= 6 {
        126
    } else if 7 <= d <= 10 {
        110
    } else if 11 <= d <= 15 {
        70
    } else if 16 <= d <= 18 {
        50
    } else if 19 <= d <= 20 {
        30
    } else if 21 <= d <= 32 {
        20
    } else {
        0
    }
}

/// The least of the first `n` entries of `s`, or `u32::MAX` when `n` is zero.
pub open spec fn seq_min(s: Seq<nat>, n: nat) -> nat
    decreases n,
{
    if n == 0 {
        u32::MAX as nat
    } else {
        let m = seq_min(s, (n - 1) as nat);
        if s[n - 1] < m {
            s[n - 1]
        } else {
            m
        }
    }
}

/// The four ratings of a report, as mathematical values.
pub struct ScoreView {
    pub cycle: nat,
    pub collision: nat,
    pub bit_dependency: nat,
    pub distribution: nat,
}

/// The rating of the statistics `r`.
pub open spec fn score_of(r: ReportView) -> ScoreView {
    let dep_min = seq_min(r.dependency_matrix, r.dependency_matrix.len());
    let dist_min = seq_min(r.distribution, r.distribution.len());
    ScoreView {
        cycle: if r.cycle_length is None {
            255
        } else {
            0
        },
        collision: if r.collisions == 0 {
            255
        } else if r.collisions == 1 {
            20
        } else {
            0
        },
        bit_dependency: dependency_band(SAMPLE_SIZE - dep_min, 127) + dependency_band(
            dep_min - SAMPLE_SIZE,
            128,
        ),
        distribution: distribution_band(DISTRIBUTION_IDEAL - dist_min, 127) + distribution_band(
            dist_min - DISTRIBUTION_IDEAL,
            128,
        ),
    }
}

/// The sum of the four ratings.
pub open spec fn total_of(s: ScoreView) -> nat {
    s.cycle + s.collision + s.bit_dependency + s.distribution
}

/// Points for a deviation of the dependency matrix; see [`dependency_band`].
fn dependency_points(d: i64, top: u8) -> (r: u8)
    requires
        top <= 128,
    ensures
        r == dependency_band(d as int, top as nat),
        r <= 126 || r == top,
{
    if 0 <= d && d <= 4 {
        top
    } else if 5 <= d && d <= 6 {
        126
    } else if 7 <= d && d <= 16 {
        120
    } else if 17 <= d && d <= 32 {
        90
    } else if 33 <= d && d <= 64 {
        50
    } else if 65 <= d && d <= 80 {
        20
    } else {
        0
    }
}

/// Points for a deviation of a histogram bucket; see [`distribution_band`].
fn distribution_points(d: i64, top: u8) -> (r: u8)
    requires
        top <= 128,
    ensures
        r == distribution_band(d as int, top as nat),
        r <= 126 || r == top,
{
    if 0 <= d && d <= 4 {
        top
    } else if 5 <= d && d <= 6 {
        126
    } else if 7 <= d && d <= 10 {
        110
    } else if 11 <= d && d <= 15 {
        70
    } else if 16 <= d && d <= 18 {
        50
    } else if 19 <= d && d <= 20 {
        30
    } else if 21 <= d && d <= 32 {
        20
    } else {
        0
    }
}

/// The least entry of `v`, or `u32::MAX` when `v` is empty.
fn least(v: &Vec<u32>) -> (r: u32)
    ensures
        r as nat == seq_min(Seq::new(v@.len(), |i: int| v@[i] as nat), v@.len()),
{
    let ghost s = Seq::new(v@.len(), |i: int| v@[i] as nat);
    let mut min: u32 = u32::MAX;
    let mut i: usize = 0;
    while i < v.len()
        invariant
            i <= v@.len(),
            s == Seq::new(v@.len(), |i: int| v@[i] as nat),
            min as nat == seq_min(s, i as nat),
        decreases v@.len() - i,
    {
        if v[i] < min {
            min = v[i];
        }
        i = i + 1;
    }
    min
}

impl Report {
    /// Get the final score of this report.
    pub fn get_score(&self) -> (r: Score)
        requires
            self.wf(),
        ensures
            r@ == score_of(self@),
    {
        // The cycle should not be less than the sample size.
        let cycle: u8 = if self.cycle_length.is_none() {
            255
        } else {
            0
        };
        // Ideally, there should be no collisions in the sample. By the birthday problem one
        // collision still has a very small probability.
        let collision: u8 = if self.collisions == 0 {
            255
        } else if self.collisions == 1 {
            20
        } else {
            0
        };
        // Rate the bit dependency by the distance of its least entry to the ideal value.
        let dep_min = least(&self.dependency_matrix);
        let below = dependency_points(SAMPLE_SIZE as i64 - dep_min as i64, 127);
        let above = dependency_points(dep_min as i64 - SAMPLE_SIZE as i64, 128);
        let bit_dependency = below + above;
        // Rate the distribution by the distance of its least entry to the ideal value, below
        // and above it.
        let dist_min = least(&self.distribution);
        let below = distribution_points(DISTRIBUTION_IDEAL - dist_min as i64, 127);
        let above = distribution_points(dist_min as i64 - DISTRIBUTION_IDEAL, 128);
        let distribution = below + above;
        Score { cycle, collision, bit_dependency, distribution }
    }
}

/// The score of some report.
pub struct Score {
    /// The quality of the cycle length.
    cycle: u8,
    /// The quality of occurence of collisions.
    collision: u8,
    /// The quality of the bit dependency matrix.
    bit_dependency: u8,
    /// The quality of the distribution.
    distribution: u8,
}

impl View for Score {
    type V = ScoreView;

    closed spec fn view(&self) -> ScoreView {
        ScoreView {
            cycle: self.cycle as nat,
            collision: self.collision as nat,
            bit_dependency: self.bit_dependency as nat,
            distribution: self.distribution as nat,
        }
    }
}

impl Score {
    /// Sum the scores together to a single integer.
    pub fn total(self) -> (r: u16)
        ensures
            r == total_of(self@),
    {
        self.cycle as u16 + self.collision as u16 + self.bit_dependency as u16
            + self.distribution as u16
    }
}


/// Before the first occurrence of `v` nothing is found; from just after it on, its index is.
proof fn lemma_first_index_of(s: Seq<u64>, v: u64, k: nat, n: nat)
    requires
        n <= s.len(),
        forall|j: int| 0 <= j < k && j < n ==> s[j] != v,
        k < s.len() ==> s[k as int] == v,
    ensures
        n <= k ==> first_index_of(s, v, n) is None,
        k < n ==> first_index_of(s, v, n) == Some(k),
    decreases n,
{
    if n > 0 {
        lemma_first_index_of(s, v, k, (n - 1) as nat);
    }
}

/// The cycle length is the index at which the anchor first recurs in the sample.
pub proof fn lemma_cycle_found(anchor: u64, s: Seq<u64>, k: nat)
    requires
        k < s.len(),
        s[k as int] == anchor,
        forall|j: int| 0 <= j < k ==> s[j] != anchor,
    ensures
        report_of(anchor, s).cycle_length == Some(k),
{
    lemma_first_index_of(s, anchor, k, s.len());
}

/// When the anchor does not recur in the sample, no cycle length is reported.
pub proof fn lemma_cycle_absent(anchor: u64, s: Seq<u64>)
    requires
        forall|j: int| 0 <= j < s.len() ==> s[j] != anchor,
    ensures
        report_of(anchor, s).cycle_length is None,
{
    lemma_first_index_of(s, anchor, s.len(), s.len());
}

/// The counts of a sample of one repeated value `c`.
proof fn lemma_constant_counts(s: Seq<u64>, c: u64, n: nat)
    requires
        n <= s.len(),
        forall|i: int| 0 <= i < s.len() ==> s[i] == c,
    ensures
        forall|cell: int|
            #![trigger dependency_count(s, cell, n)]
            dependency_count(s, cell, n) == if dependency_holds(
                c,
                (cell / 64) as u64,
                (cell % 64) as u64,
            ) {
                n
            } else {
                0
            },
        forall|b: int|
            #![trigger bucket_count(s, b, n)]
            bucket_count(s, b, n) == if b == c % 4096 {
                n
            } else {
                0
            },
        n > 0 ==> collision_count(s, n) == n - 1,
        n > 0 ==> first_index_of(s, c, n) == Some(0nat),
    decreases n,
{
    if n > 0 {
        let m = (n - 1) as nat;
        lemma_constant_counts(s, c, m);
        assert(s[m as int] == c);
        assert forall|cell: int| #![trigger dependency_count(s, cell, n)]
            dependency_count(s, cell, n) == if dependency_holds(
                c,
                (cell / 64) as u64,
                (cell % 64) as u64,
            ) {
                n
            } else {
                0
            } by {
            assert(dependency_count(s, cell, m) == if dependency_holds(
                c,
                (cell / 64) as u64,
                (cell % 64) as u64,
            ) {
                m
            } else {
                0
            });
        }
        assert forall|b: int| #![trigger bucket_count(s, b, n)]
            bucket_count(s, b, n) == if b == c % 4096 {
                n
            } else {
                0
            } by {
            assert(bucket_count(s, b, m) == if b == c % 4096 {
                m
            } else {
                0
            });
        }
        if n > 1 {
            assert(repeats_earlier(s, n - 1)) by {
                assert(0 <= 0 < n - 1 && s[0] == s[n - 1]);
            }
            assert(collision_count(s, n) == collision_count(s, m) + 1);
        } else {
            assert(!repeats_earlier(s, 0));
            assert(collision_count(s, n) == collision_count(s, 0));
        }
    }
}

/// A source that always yields `c` gives a report in which each cell of the dependency matrix
/// counts either every sampled value or none, every one when `c` has all bits clear or all
/// set; the whole sample lies in the bucket of `c`; every value after the first collides, so
/// the collision rating is zero; and the anchor recurs at once.
pub proof fn lemma_constant_source<R: Random>(rand: R, c: u64)
    requires
        forall|i: nat| #[trigger] rand.upcoming(i) == c,
    ensures
        ({
            let r = report_of_source(rand);
            &&& forall|cell: int|
                0 <= cell < CELLS ==> #[trigger] r.dependency_matrix[cell] == if dependency_holds(
                    c,
                    (cell / 64) as u64,
                    (cell % 64) as u64,
                ) {
                    SAMPLE_SIZE as nat
                } else {
                    0
                }
            &&& (c == 0 || c == u64::MAX) ==> forall|cell: int|
                0 <= cell < CELLS ==> #[trigger] r.dependency_matrix[cell] == SAMPLE_SIZE
            &&& r.distribution[(c % 4096) as int] == SAMPLE_SIZE
            &&& forall|b: int|
                0 <= b < BUCKETS && b != c % 4096 ==> #[trigger] r.distribution[b] == 0
            &&& r.collisions == SAMPLE_SIZE - 1
            &&& score_of(r).collision == 0
            &&& r.cycle_length == Some(0nat)
        }),
{
    let s = sample_of(rand);
    assert forall|i: int| 0 <= i < s.len() implies s[i] == c by {
        assert(rand.upcoming((i + 1) as nat) == c);
    }
    lemma_constant_counts(s, c, s.len());
    assert(rand.upcoming(0) == c);
    assert forall|cell: int| 0 <= cell < CELLS && (c == 0 || c == u64::MAX) implies #[trigger] dependency_holds(
        c,
        (cell / 64) as u64,
        (cell % 64) as u64,
    ) by {
        let x = (cell / 64) as u64;
        let y = (cell % 64) as u64;
        assert(x < 64 && y < 64);
        assert((c == 0 || c == 0xffff_ffff_ffff_ffffu64) && x < 64 && y < 64 ==> ((c & (1u64 << x))
            == 0 ==> (c & (1u64 << y)) == 0)) by (bit_vector);
    }
}


impl Report {
    /// The index in the sample at which the anchor first recurred, if it did.
    pub fn cycle_length(&self) -> (r: Option<u32>)
        ensures
            match r {
                Some(k) => self@.cycle_length == Some(k as nat),
                None => self@.cycle_length is None,
            },
    {
        self.cycle_length
    }

    /// The number of sampled values that repeated an earlier one.
    pub fn collisions(&self) -> (r: u32)
        ensures
            r == self@.collisions,
    {
        self.collisions
    }

    /// How often "bit `x` clear implies bit `y` clear" held in the sample.
    pub fn dependency(&self, x: usize, y: usize) -> (r: u32)
        requires
            self.wf(),
            x < 64,
            y < 64,
        ensures
            r == self@.dependency_matrix[x * 64 + y],
    {
        assert(x * 64 + y < 4096) by (nonlinear_arith)
            requires
                x < 64,
                y < 64,
        ;
        self.dependency_matrix[x * 64 + y]
    }

    /// How many sampled values were equal to `bucket` modulo 4096.
    pub fn distribution(&self, bucket: usize) -> (r: u32)
        requires
            self.wf(),
            bucket < 4096,
        ensures
            r == self@.distribution[bucket as int],
    {
        self.distribution[bucket]
    }
}

impl Score {
    /// The quality of the cycle length.
    pub fn cycle(&self) -> (r: u8)
        ensures
            r == self@.cycle,
    {
        self.cycle
    }

    /// The quality of occurence of collisions.
    pub fn collision(&self) -> (r: u8)
        ensures
            r == self@.collision,
    {
        self.collision
    }

    /// The quality of the bit dependency matrix.
    pub fn bit_dependency(&self) -> (r: u8)
        ensures
            r == self@.bit_dependency,
    {
        self.bit_dependency
    }

    /// The quality of the distribution.
    pub fn distribution(&self) -> (r: u8)
        ensures
            r == self@.distribution,
    {
        self.distribution
    }
}

} // verus!
