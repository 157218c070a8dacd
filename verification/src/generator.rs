//! The first-order Markov model over chords, and its generators.
//!
//! Built once from a training sequence: the alphabet of distinct chords in
//! first-appearance order, the matrix of transition counts (read cyclically,
//! so every observed chord has at least one outgoing transition), the
//! per-column totals, and the scaled transition matrix
//! `transit[i][j] * col_sums[j] == counts[i][j] * scale`, whose integer
//! entries are the exact transition probabilities times `scale`.

use vstd::prelude::*;
use std::collections::HashMap;
use crate::arith::{divides, lcm, lcm_spec, lemma_div_exact, lemma_divides_trans,
    lemma_lcm_spec_bounds};
use crate::chord::Chord;
use crate::error::Error;
use crate::matrix::{lemma_mat_pow_add, lemma_mat_pow_wf, lemma_mul_entry_upto_bounds,
    mat_fits, mat_mul, mat_nonneg, mat_pow, mat_wf, mul_entry, mul_entry_upto, Matrix};
use crate::sampler::{sample_weighted, weights_sum};

verus! {

broadcast use vstd::std_specs::hash::group_hash_axioms;

/// The distinct chords of `s`, in order of first appearance.
pub open spec fn alphabet_spec(s: Seq<Chord>) -> Seq<Chord>
    decreases s.len(),
{
    if s.len() == 0 {
        Seq::empty()
    } else {
        let p = alphabet_spec(s.drop_last());
        if p.contains(s.last()) {
            p
        } else {
            p.push(s.last())
        }
    }
}

/// How often `c` occurs in `s`.
pub open spec fn occ(s: Seq<Chord>, c: Chord) -> int
    decreases s.len(),
{
    if s.len() == 0 {
        0
    } else {
        occ(s.drop_last(), c) + if s.last() == c { 1int } else { 0int }
    }
}

/// How many adjacent pairs of `s` step from `from` to `to`.
pub open spec fn pair_count(s: Seq<Chord>, from: Chord, to: Chord) -> int
    decreases s.len(),
{
    if s.len() < 2 {
        0
    } else {
        pair_count(s.drop_last(), from, to)
            + if s[s.len() - 2] == from && s.last() == to { 1int } else { 0int }
    }
}

/// How many transitions from `from` to `to` the training sequence holds when
/// read cyclically: its adjacent pairs, plus the wrap-around pair from its
/// last chord back to its first.
pub open spec fn trans_count(s: Seq<Chord>, from: Chord, to: Chord) -> int {
    pair_count(s, from, to)
        + if s.len() >= 1 && s.last() == from && s[0] == to { 1int } else { 0int }
}

/// The sum of the first `k` entries of column `j`.
pub open spec fn col_sum_upto(m: Seq<Seq<int>>, j: int, k: int) -> int
    decreases k,
{
    if k <= 0 {
        0
    } else {
        col_sum_upto(m, j, k - 1) + m[k - 1][j]
    }
}

/// The sum of column `j` of an `n` by `n` matrix.
pub open spec fn col_sum(m: Seq<Seq<int>>, j: int, n: int) -> int {
    col_sum_upto(m, j, n)
}

/// The running least common multiple of the occurrence counts of the first
/// `k` alphabet chords: after all chords are folded in, the scale of the
/// trained model.
pub open spec fn scale_chain(s: Seq<Chord>, k: int) -> int
    decreases k,
{
    if k <= 0 {
        1
    } else {
        lcm_spec(scale_chain(s, k - 1), occ(s, alphabet_spec(s)[k - 1]))
    }
}

/// The model's scale fits a 64-bit word: the one arithmetic bound that
/// training itself can hit (the scaled matrix entries never exceed the
/// scale).
pub open spec fn scale_fits(s: Seq<Chord>) -> bool {
    scale_chain(s, alphabet_spec(s).len() as int) <= u64::MAX
}

/// Each scale-chain value is positive and at least its predecessor.
proof fn lemma_scale_chain_pos(s: Seq<Chord>, k: int)
    requires
        0 <= k <= alphabet_spec(s).len(),
    ensures
        scale_chain(s, k) >= 1,
        k >= 1 ==> scale_chain(s, k) >= scale_chain(s, k - 1),
    decreases k,
{
    if k >= 1 {
        lemma_scale_chain_pos(s, k - 1);
        lemma_alphabet_props(s);
        let c = alphabet_spec(s)[k - 1];
        assert(alphabet_spec(s).contains(c));
        lemma_occ_bounds(s, c);
        lemma_lcm_spec_bounds(scale_chain(s, k - 1), occ(s, c));
    }
}

/// The scale chain grows with the number of chords folded in.
proof fn lemma_scale_chain_grows(s: Seq<Chord>, k: int, m: int)
    requires
        0 <= k <= m <= alphabet_spec(s).len(),
    ensures
        1 <= scale_chain(s, k) <= scale_chain(s, m),
    decreases m - k,
{
    lemma_scale_chain_pos(s, k);
    if k < m {
        lemma_scale_chain_grows(s, k + 1, m);
        lemma_scale_chain_pos(s, k + 1);
    }
}

/// A chord-progression generator: a trained Markov model together with its
/// memoized matrix powers.
#[derive(Debug)]
pub struct ChordGenerator {
    /// The alphabet: id to chord, in first-appearance order.
    pub map_forward: Vec<Chord>,
    /// `counts@[i][j]`: how often the training sequence steps from chord `j`
    /// to chord `i`, read cyclically.
    pub counts: Matrix,
    /// `col_sums@[j]`: total transitions out of chord `j`; equals how often
    /// chord `j` occurs in the training sequence.
    pub col_sums: Vec<u64>,
    /// The least common multiple of all column totals.
    pub scale: u64,
    /// The transition matrix times `scale`:
    /// `transit@[i][j] == scale * counts@[i][j] / col_sums@[j]`.
    pub transit: Matrix,
    /// Lazily grown cache: exponent `e` maps to `transit` to the `e`-th.
    pub transit_pow_cache: HashMap<u32, Matrix>,
}

impl ChordGenerator {
    /// The alphabet size.
    pub open spec fn n_spec(&self) -> int {
        self.map_forward@.len() as int
    }

    /// The model invariant, established by `new` and kept by every method.
    pub open spec fn wf(&self) -> bool {
        let n = self.n_spec();
        &&& n >= 1
        &&& forall|a: int, b: int| 0 <= a < b < n
            ==> #[trigger] self.map_forward@[a] != #[trigger] self.map_forward@[b]
        &&& self.counts.wf(n)
        &&& self.col_sums@.len() == n
        &&& forall|j: int| 0 <= j < n ==> #[trigger] self.col_sums@[j] > 0
        &&& forall|j: int| 0 <= j < n
            ==> #[trigger] (self.col_sums@[j] as int) == col_sum(self.counts@, j, n)
        &&& self.scale >= 1
        &&& forall|j: int| 0 <= j < n
            ==> #[trigger] divides(self.col_sums@[j] as int, self.scale as int)
        &&& self.transit.wf(n)
        &&& forall|i: int, j: int| 0 <= i < n && 0 <= j < n
            ==> #[trigger] (self.transit@[i][j] * self.col_sums@[j])
                == self.counts@[i][j] * self.scale
        &&& forall|e: u32| #[trigger] self.transit_pow_cache@.contains_key(e)
            ==> e >= 2
                && self.transit_pow_cache@[e].wf(n)
                && self.transit_pow_cache@[e]@ == mat_pow(self.transit@, e as int, n)
    }

    /// The id of `c` in the alphabet, if `c` was seen in training.
    pub fn chord_id(&self, c: &Chord) -> (r: Option<usize>)
        ensures
            r is Some ==> (r->0 as int) < self.map_forward@.len()
                && self.map_forward@[r->0 as int] == *c,
            r is None <==> !self.map_forward@.contains(*c),
    {
        find_chord(&self.map_forward, c)
    }
}

/// Linear search of a chord in a vector.
fn find_chord(v: &Vec<Chord>, c: &Chord) -> (r: Option<usize>)
    ensures
        r is Some ==> (r->0 as int) < v@.len() && v@[r->0 as int] == *c,
        r is None <==> !v@.contains(*c),
{
    let mut i: usize = 0;
    while i < v.len()
        invariant
            i <= v@.len(),
            forall|t: int| 0 <= t < i ==> v@[t] != *c,
        decreases v@.len() - i,
    {
        if v[i] == *c {
            return Some(i);
        }
        i += 1;
    }
    assert(!v@.contains(*c));
    None
}

/// The alphabet of a sequence contains exactly the chords of the sequence,
/// each once.
pub proof fn lemma_alphabet_props(s: Seq<Chord>)
    ensures
        forall|c: Chord| #[trigger] alphabet_spec(s).contains(c) <==> s.contains(c),
        forall|a: int, b: int| 0 <= a < b < alphabet_spec(s).len()
            ==> #[trigger] alphabet_spec(s)[a] != #[trigger] alphabet_spec(s)[b],
        alphabet_spec(s).len() <= s.len(),
    decreases s.len(),
{
    if s.len() > 0 {
        lemma_alphabet_props(s.drop_last());
        let p = alphabet_spec(s.drop_last());
        let a = alphabet_spec(s);
        assert forall|c: Chord| #[trigger] a.contains(c) implies s.contains(c) by {
            if p.contains(c) {
                assert(s.drop_last().contains(c));
                let t = choose|t: int| 0 <= t < s.drop_last().len() && s.drop_last()[t] == c;
                assert(s[t] == c);
            } else {
                assert(c == s.last());
                assert(s[s.len() - 1] == c);
            }
        }
        assert forall|c: Chord| #[trigger] s.contains(c) implies a.contains(c) by {
            let t = choose|t: int| 0 <= t < s.len() && s[t] == c;
            if t < s.len() - 1 {
                assert(s.drop_last()[t] == c);
                assert(s.drop_last().contains(c));
                assert(p.contains(c));
                if !p.contains(s.last()) {
                    let u = choose|u: int| 0 <= u < p.len() && p[u] == c;
                    assert(a[u] == c);
                }
            } else {
                if p.contains(s.last()) {
                    assert(a.contains(c));
                } else {
                    assert(a[a.len() - 1] == c);
                }
            }
        }
    }
}

/// A chord that occurs in a sequence occurs a positive number of times, and
/// no chord occurs more often than the sequence is long.
pub proof fn lemma_occ_bounds(s: Seq<Chord>, c: Chord)
    ensures
        0 <= occ(s, c) <= s.len(),
        s.contains(c) ==> occ(s, c) >= 1,
    decreases s.len(),
{
    if s.len() > 0 {
        lemma_occ_bounds(s.drop_last(), c);
        if s.contains(c) && s.last() != c {
            let t = choose|t: int| 0 <= t < s.len() && s[t] == c;
            assert(s.drop_last()[t] == c);
            assert(s.drop_last().contains(c));
        }
    }
}

/// Taking one more element extends the occurrence count by one indicator.
proof fn lemma_occ_step(s: Seq<Chord>, t: int, c: Chord)
    requires
        0 <= t < s.len(),
    ensures
        occ(s.take(t + 1), c) == occ(s.take(t), c) + if s[t] == c { 1int } else { 0int },
{
    assert(s.take(t + 1).drop_last() =~= s.take(t));
    assert(s.take(t + 1).last() == s[t]);
}

/// Taking one more element extends the pair count by one indicator.
proof fn lemma_pair_count_step(s: Seq<Chord>, t: int, from: Chord, to: Chord)
    requires
        1 <= t < s.len(),
    ensures
        pair_count(s.take(t + 1), from, to) == pair_count(s.take(t), from, to)
            + if s[t - 1] == from && s[t] == to { 1int } else { 0int },
{
    assert(s.take(t + 1).drop_last() =~= s.take(t));
    assert(s.take(t + 1).last() == s[t]);
    assert(s.take(t + 1)[t - 1] == s[t - 1]);
}

/// How a single-entry update moves a column sum.
proof fn lemma_col_sum_update(
    m1: Seq<Seq<int>>,
    m2: Seq<Seq<int>>,
    x: int,
    y: int,
    d: int,
    j: int,
    k: int,
)
    requires
        m2[x][y] == m1[x][y] + d,
        forall|p: int| 0 <= p < k && !(p == x && y == j) ==> #[trigger] m2[p][j] == m1[p][j],
        0 <= x,
        0 <= y,
        0 <= j,
    ensures
        col_sum_upto(m2, j, k) == col_sum_upto(m1, j, k)
            + if y == j && x < k { d } else { 0int },
    decreases k,
{
    if k > 0 {
        lemma_col_sum_update(m1, m2, x, y, d, j, k - 1);
    }
}

/// In a non-negative matrix, each entry is at most its column sum, and the
/// column sum is non-negative.
proof fn lemma_col_sum_term_le(m: Seq<Seq<int>>, i: int, j: int, k: int, n: int)
    requires
        mat_wf(m, n),
        mat_nonneg(m, n),
        0 <= j < n,
        0 <= k <= n,
    ensures
        col_sum_upto(m, j, k) >= 0,
        0 <= i < k ==> m[i][j] <= col_sum_upto(m, j, k),
    decreases k,
{
    if k > 0 {
        lemma_col_sum_term_le(m, i, j, k - 1, n);
    }
}

/// A matrix with all-zero entries has zero column sums.
proof fn lemma_col_sum_zero(m: Seq<Seq<int>>, j: int, k: int)
    requires
        forall|p: int| 0 <= p < k ==> #[trigger] m[p][j] == 0,
        0 <= j,
    ensures
        col_sum_upto(m, j, k) == 0,
    decreases k,
{
    if k > 0 {
        lemma_col_sum_zero(m, j, k - 1);
    }
}

impl ChordGenerator {
    /// Train a model on a sequence of chords.
    ///
    /// The sequence is read cyclically: every adjacent pair is one observed
    /// transition, and one more leads from the last chord back to the first,
    /// so every observed chord has at least one outgoing transition.
    ///
    /// Fails with `InvalidInput` exactly on an empty sequence, and with
    /// `Overflow` exactly when the common scale (the least common multiple
    /// of the chords' occurrence counts) leaves 64-bit range.
    #[verifier::loop_isolation(false)]
    pub fn new(chord_seq: &Vec<Chord>) -> (r: Result<ChordGenerator, Error>)
        ensures
            chord_seq@.len() == 0 <==> r == Err::<ChordGenerator, Error>(Error::InvalidInput),
            r is Err ==> r->Err_0 == Error::InvalidInput || r->Err_0 == Error::Overflow,
            r is Ok <==> chord_seq@.len() >= 1 && scale_fits(chord_seq@),
            r is Ok ==> r->Ok_0.scale as int
                == scale_chain(chord_seq@, alphabet_spec(chord_seq@).len() as int),
            r is Ok ==> ({
                let m = r->Ok_0;
                &&& m.wf()
                &&& m.map_forward@ == alphabet_spec(chord_seq@)
                &&& forall|i: int, j: int| 0 <= i < m.n_spec() && 0 <= j < m.n_spec()
                    ==> #[trigger] m.counts@[i][j]
                        == trans_count(chord_seq@, m.map_forward@[j], m.map_forward@[i])
                &&& forall|j: int| 0 <= j < m.n_spec()
                    ==> #[trigger] (m.col_sums@[j] as int) == occ(chord_seq@, m.map_forward@[j])
                &&& m.transit_pow_cache@ == Map::<u32, Matrix>::empty()
            }),
    {
        let ghost s = chord_seq@;
        let len = chord_seq.len();
        if len == 0 {
            return Err(Error::InvalidInput);
        }
        proof {
            lemma_alphabet_props(s);
        }
        let ghost alpha = alphabet_spec(s);

        // The alphabet, in first-appearance order.
        let mut map_forward: Vec<Chord> = Vec::new();
        let mut t: usize = 0;
        while t < len
            invariant
                t <= len,
                map_forward@ == alphabet_spec(s.take(t as int)),
            decreases len - t,
        {
            proof {
                assert(s.take(t as int + 1).drop_last() =~= s.take(t as int));
                assert(s.take(t as int + 1).last() == s[t as int]);
            }
            match find_chord(&map_forward, &chord_seq[t]) {
                Some(_) => {
                    assert(map_forward@.contains(s[t as int]));
                },
                None => {
                    map_forward.push(chord_seq[t]);
                },
            }
            t += 1;
        }
        proof {
            assert(s.take(len as int) =~= s);
        }
        let n = map_forward.len();
        proof {
            assert(s.contains(s[0]));
            assert(alpha.contains(s[0]));
            assert(n >= 1);
        }

        // Count the cyclic transitions, tracking each column's total.
        let mut counts = Matrix::zero(n);
        let mut col_sums: Vec<u64> = Vec::new();
        let mut q: usize = 0;
        while q < n
            invariant
                q <= n,
                col_sums@.len() == q,
                forall|u: int| 0 <= u < q ==> #[trigger] col_sums@[u] == 0,
            decreases n - q,
        {
            col_sums.push(0);
            q += 1;
        }
        proof {
            assert forall|j: int| 0 <= j < n
                implies #[trigger] (col_sums@[j] as int) == col_sum(counts@, j, n as int) by {
                lemma_col_sum_zero(counts@, j, n as int);
            }
            assert(s.take(0int) =~= Seq::<Chord>::empty());
        }
        let mut t: usize = 1;
        while t < len
            invariant
                1 <= t <= len,
                counts.wf(n as int),
                counts@.len() == n,
                col_sums@.len() == n,
                map_forward@ == alpha,
                forall|i: int, j: int| 0 <= i < n && 0 <= j < n
                    ==> #[trigger] counts@[i][j]
                        == pair_count(s.take(t as int), alpha[j], alpha[i]),
                forall|j: int| 0 <= j < n
                    ==> #[trigger] (col_sums@[j] as int) == occ(s.take(t as int - 1), alpha[j]),
                forall|j: int| 0 <= j < n
                    ==> #[trigger] (col_sums@[j] as int) == col_sum(counts@, j, n as int),
            decreases len - t,
        {
            let i = match find_chord(&map_forward, &chord_seq[t]) {
                Some(i) => i,
                None => {
                    proof {
                        assert(s.contains(s[t as int]));
                        assert(alpha.contains(s[t as int]));
                        assert(false);
                    }
                    return Err(Error::InvalidInput);
                },
            };
            let j = match find_chord(&map_forward, &chord_seq[t - 1]) {
                Some(j) => j,
                None => {
                    proof {
                        assert(s.contains(s[t as int - 1]));
                        assert(alpha.contains(s[t as int - 1]));
                        assert(false);
                    }
                    return Err(Error::InvalidInput);
                },
            };
            let ghost old_counts = counts@;
            proof {
                counts.lemma_ranges(n as int);
                lemma_col_sum_term_le(counts@, i as int, j as int, n as int, n as int);
                lemma_occ_bounds(s.take(t as int - 1), alpha[j as int]);
                assert(col_sums@[j as int] as int == occ(s.take(t as int - 1), alpha[j as int]));
                assert(col_sums@[j as int] as int == col_sum(counts@, j as int, n as int));
                assert(counts@[i as int][j as int] <= col_sums@[j as int] as int);
            }
            counts.add_to_entry(i, j, 1);
            let cv = col_sums[j];
            col_sums[j] = cv + 1;
            t += 1;
            proof {
                let gt = t as int - 1;
                assert forall|i2: int, j2: int| 0 <= i2 < n && 0 <= j2 < n
                    implies #[trigger] counts@[i2][j2]
                        == pair_count(s.take(gt + 1), alpha[j2], alpha[i2]) by {
                    lemma_pair_count_step(s, gt, alpha[j2], alpha[i2]);
                    if i2 == i as int && j2 == j as int {
                        assert(s[gt - 1] == alpha[j2] && s[gt] == alpha[i2]);
                    } else {
                        assert(!(s[gt - 1] == alpha[j2] && s[gt] == alpha[i2]));
                    }
                }
                assert forall|j2: int| 0 <= j2 < n
                    implies #[trigger] (col_sums@[j2] as int)
                        == occ(s.take(gt + 1 - 1), alpha[j2]) by {
                    lemma_occ_step(s, gt - 1, alpha[j2]);
                    if j2 == j as int {
                        assert(s[gt - 1] == alpha[j2]);
                    } else {
                        assert(s[gt - 1] != alpha[j2]);
                    }
                }
                assert forall|j2: int| 0 <= j2 < n
                    implies #[trigger] (col_sums@[j2] as int)
                        == col_sum(counts@, j2, n as int) by {
                    lemma_col_sum_update(old_counts, counts@, i as int, j as int, 1int, j2,
                        n as int);
                }
            }
        }

        // The wrap-around transition from the last chord back to the first.
        let i = match find_chord(&map_forward, &chord_seq[0]) {
            Some(i) => i,
            None => {
                proof {
                    assert(s.contains(s[0]));
                    assert(false);
                }
                return Err(Error::InvalidInput);
            },
        };
        let j = match find_chord(&map_forward, &chord_seq[len - 1]) {
            Some(j) => j,
            None => {
                proof {
                    assert(s.contains(s[len - 1]));
                    assert(false);
                }
                return Err(Error::InvalidInput);
            },
        };
        let ghost old_counts = counts@;
        proof {
            counts.lemma_ranges(n as int);
            lemma_col_sum_term_le(counts@, i as int, j as int, n as int, n as int);
            lemma_occ_bounds(s.take(len as int - 1), alpha[j as int]);
            assert(s.take(len as int) =~= s);
            assert(col_sums@[j as int] as int == occ(s.take(len as int - 1), alpha[j as int]));
            assert(col_sums@[j as int] as int == col_sum(counts@, j as int, n as int));
            assert(counts@[i as int][j as int] <= col_sums@[j as int] as int);
        }
        counts.add_to_entry(i, j, 1);
        let cv = col_sums[j];
        col_sums[j] = cv + 1;
        proof {
            assert forall|i2: int, j2: int| 0 <= i2 < n && 0 <= j2 < n
                implies #[trigger] counts@[i2][j2]
                    == trans_count(s, alpha[j2], alpha[i2]) by {
                if i2 == i as int && j2 == j as int {
                    assert(s.last() == alpha[j2] && s[0] == alpha[i2]);
                } else {
                    assert(!(s.last() == alpha[j2] && s[0] == alpha[i2]));
                }
            }
            assert forall|j2: int| 0 <= j2 < n
                implies #[trigger] (col_sums@[j2] as int) == occ(s, alpha[j2]) by {
                lemma_occ_step(s, len as int - 1, alpha[j2]);
                if j2 == j as int {
                    assert(s[len as int - 1] == alpha[j2]);
                } else {
                    assert(s[len as int - 1] != alpha[j2]);
                }
            }
            assert forall|j2: int| 0 <= j2 < n
                implies #[trigger] (col_sums@[j2] as int)
                    == col_sum(counts@, j2, n as int) by {
                lemma_col_sum_update(old_counts, counts@, i as int, j as int, 1int, j2, n as int);
            }
            assert forall|j2: int| 0 <= j2 < n implies #[trigger] col_sums@[j2] > 0 by {
                lemma_occ_bounds(s, alpha[j2]);
                assert(alpha.contains(alpha[j2]));
            }
        }

        // The common scale: the least common multiple of all column totals.
        let mut scale: u64 = 1;
        let mut q: usize = 0;
        while q < n
            invariant
                q <= n,
                scale >= 1,
                scale as int == scale_chain(s, q as int),
                forall|u: int| 0 <= u < q
                    ==> #[trigger] divides(col_sums@[u] as int, scale as int),
            decreases n - q,
        {
            let ghost old_scale = scale;
            proof {
                assert(col_sums@[q as int] as int == occ(s, alpha[q as int]));
            }
            scale = match lcm(scale, col_sums[q]) {
                Some(l) => l,
                None => {
                    proof {
                        lemma_scale_chain_grows(s, q as int + 1, n as int);
                    }
                    return Err(Error::Overflow);
                },
            };
            proof {
                lemma_lcm_spec_bounds(old_scale as int, col_sums@[q as int] as int);
                assert forall|u: int| 0 <= u < q + 1
                    implies #[trigger] divides(col_sums@[u] as int, scale as int) by {
                    if u < q {
                        lemma_divides_trans(col_sums@[u] as int, old_scale as int, scale as int);
                    }
                }
            }
            q += 1;
        }

        // The scaled transition matrix.
        let mut transit = Matrix::zero(n);
        let mut j2: usize = 0;
        while j2 < n
            invariant
                j2 <= n,
                transit.wf(n as int),
                transit@.len() == n,
                forall|p: int, q2: int| 0 <= p < n && 0 <= q2 < n && q2 >= j2
                    ==> #[trigger] transit@[p][q2] == 0,
                forall|p: int, q2: int| 0 <= p < n && 0 <= q2 < j2
                    ==> #[trigger] (transit@[p][q2] * col_sums@[q2])
                        == counts@[p][q2] * scale,
            decreases n - j2,
        {
            let cs = col_sums[j2];
            proof {
                lemma_div_exact(cs as int, scale as int);
            }
            let factor = scale / cs;
            let mut i2: usize = 0;
            while i2 < n
                invariant
                    i2 <= n,
                    j2 < n,
                    cs == col_sums@[j2 as int],
                    factor as int == scale as int / cs as int,
                    (factor as int) * (cs as int) == scale as int,
                    transit.wf(n as int),
                    transit@.len() == n,
                    forall|p: int, q2: int| 0 <= p < n && 0 <= q2 < n && q2 > j2
                        ==> #[trigger] transit@[p][q2] == 0,
                    forall|p: int| 0 <= p < n && p >= i2
                        ==> #[trigger] transit@[p][j2 as int] == 0,
                    forall|p: int| 0 <= p < i2
                        ==> #[trigger] (transit@[p][j2 as int] * col_sums@[j2 as int])
                            == counts@[p][j2 as int] * scale,
                    forall|p: int, q2: int| 0 <= p < n && 0 <= q2 < j2
                        ==> #[trigger] (transit@[p][q2] * col_sums@[q2])
                            == counts@[p][q2] * scale,
                decreases n - i2,
            {
                let c = counts.entry(i2, j2);
                proof {
                    // An entry never exceeds its column total, so the scaled
                    // entry never exceeds the scale itself.
                    counts.lemma_ranges(n as int);
                    lemma_col_sum_term_le(counts@, i2 as int, j2 as int, n as int, n as int);
                    assert(col_sums@[j2 as int] as int == col_sum(counts@, j2 as int, n as int));
                    assert(c as int * factor as int <= scale as int) by (nonlinear_arith)
                        requires
                            c as int <= cs as int,
                            factor as int >= 0,
                            (factor as int) * (cs as int) == scale as int;
                }
                let v = c * factor;
                transit.add_to_entry(i2, j2, v);
                proof {
                    assert((transit@[i2 as int][j2 as int]) == c as int * factor as int);
                    assert((c as int * factor as int) * (cs as int)
                        == c as int * ((factor as int) * (cs as int))) by (nonlinear_arith);
                }
                i2 += 1;
            }
            j2 += 1;
        }

        let model = ChordGenerator {
            map_forward,
            counts,
            col_sums,
            scale,
            transit,
            transit_pow_cache: HashMap::new(),
        };
        proof {
            assert(model.wf());
        }
        Ok(model)
    }

    /// The fields the model was trained with, unchanged by a method call.
    pub open spec fn same_model(&self, other: &ChordGenerator) -> bool {
        &&& self.map_forward@ == other.map_forward@
        &&& self.counts@ == other.counts@
        &&& self.col_sums@ == other.col_sums@
        &&& self.scale == other.scale
        &&& self.transit@ == other.transit@
    }

    /// The id of a chord of the alphabet.
    pub open spec fn id_of(&self, c: Chord) -> int {
        choose|i: int| 0 <= i < self.n_spec() && self.map_forward@[i] == c
    }

    /// The training data makes a step from chord `a` to chord `b` possible.
    pub open spec fn possible_step(&self, a: Chord, b: Chord) -> bool {
        exists|i: int, j: int|
            0 <= i < self.n_spec() && 0 <= j < self.n_spec()
                && self.map_forward@[i] == b && self.map_forward@[j] == a
                && #[trigger] (self.counts@[i][j]) > 0
    }

    /// The `e`-th power of the transition matrix, memoized.
    ///
    /// For `e == 1` this is the matrix itself; larger powers are computed by
    /// binary exponentiation, each distinct exponent once, and cached.  The
    /// cache only ever grows (no entry is evicted or replaced), a computed
    /// power of two or more is in the cache when the call returns, and only
    /// exponents up to `e` are added.  When every power up to `e` fits in
    /// 64-bit entries the call succeeds.
    #[verifier::loop_isolation(false)]
    pub fn transit_pow(&mut self, e: u32) -> (r: Result<Matrix, Error>)
        requires
            old(self).wf(),
            e >= 1,
        ensures
            final(self).wf(),
            final(self).same_model(old(self)),
            old(self).transit_pow_cache@.submap_of(final(self).transit_pow_cache@),
            forall|k: u32| #[trigger] final(self).transit_pow_cache@.contains_key(k)
                ==> old(self).transit_pow_cache@.contains_key(k) || (2 <= k <= e),
            r is Ok && e >= 2 ==> final(self).transit_pow_cache@.contains_key(e),
            r is Ok ==> ({
                let p = r->Ok_0;
                &&& p.wf(old(self).n_spec())
                &&& p@ == mat_pow(old(self).transit@, e as int, old(self).n_spec())
            }),
            r is Err ==> r == Err::<Matrix, Error>(Error::Overflow),
            (forall|k: int| 2 <= k <= e
                ==> mat_fits(#[trigger] mat_pow(old(self).transit@, k, old(self).n_spec()),
                    old(self).n_spec())) ==> r is Ok,
        decreases e,
    {
        let ghost n = self.n_spec();
        proof {
            self.transit.lemma_ranges(n);
        }
        if e == 1 {
            return Ok(self.transit.duplicate());
        }
        if let Some(m) = self.transit_pow_cache.get(&e) {
            return Ok(m.duplicate());
        }
        let half = match self.transit_pow(e / 2) {
            Ok(m) => m,
            Err(err) => {
                return Err(err);
            },
        };
        proof {
            lemma_mat_pow_wf(self.transit@, e as int / 2, n);
            lemma_mat_pow_add(self.transit@, e as int / 2, e as int / 2, n);
        }
        let sq = match half.mul(&half) {
            Ok(m) => m,
            Err(err) => {
                return Err(err);
            },
        };
        let ans = if e % 2 == 1 {
            proof {
                lemma_mat_pow_wf(self.transit@, e as int - 1, n);
                assert(sq@ == mat_pow(self.transit@, e as int - 1, n));
                assert(mat_pow(self.transit@, e as int, n)
                    == mat_mul(mat_pow(self.transit@, e as int - 1, n), self.transit@, n));
            }
            match sq.mul(&self.transit) {
                Ok(m) => m,
                Err(err) => {
                    return Err(err);
                },
            }
        } else {
            sq
        };
        let copy = ans.duplicate();
        let ghost old_cache = self.transit_pow_cache@;
        proof {
            // The exponent was not cached at entry, and the recursive call
            // adds only smaller exponents, so this insertion is fresh.
            assert(!old(self).transit_pow_cache@.contains_key(e));
            assert(!old_cache.contains_key(e));
        }
        self.transit_pow_cache.insert(e, copy);
        proof {
            assert(ans@ == mat_pow(self.transit@, e as int, n));
            assert forall|e2: u32| #[trigger] self.transit_pow_cache@.contains_key(e2)
                implies e2 >= 2
                    && self.transit_pow_cache@[e2].wf(n)
                    && self.transit_pow_cache@[e2]@ == mat_pow(self.transit@, e2 as int, n) by {
                if e2 != e {
                    assert(old_cache.contains_key(e2));
                    assert(self.transit_pow_cache@[e2] == old_cache[e2]);
                }
            }
            lemma_mat_pow_wf(self.transit@, e as int, n);
            assert forall|k: u32| old(self).transit_pow_cache@.contains_key(k)
                implies self.transit_pow_cache@.contains_key(k)
                    && self.transit_pow_cache@[k] == old(self).transit_pow_cache@[k] by {
                assert(old_cache.contains_key(k));
                assert(k != e);
            }
            assert(old(self).transit_pow_cache@.submap_of(self.transit_pow_cache@));
        }
        Ok(ans)
    }

    /// Give the chord at index `0` and `right_index`, returns the weight
    /// vector of the chord at `gen_index`: entry `x` is
    /// `transit^gen_index[x][l] * transit^(right_index - gen_index)[r][x]`,
    /// which is the conditional probability of chord `x` at `gen_index`
    /// given the two boundaries, times the positive constant
    /// `scale^right_index * P(R at right_index | L at 0)`.
    ///
    /// Fails with `InvalidRange` unless `0 < gen_index < right_index`, with
    /// `UnknownChord` when a boundary never appeared in training, with
    /// `ZeroProbabilityPath` when the trained model cannot reach `R` from
    /// `L` in `right_index` steps, and with `Overflow` when a needed matrix
    /// power leaves 64-bit range.
    #[verifier::loop_isolation(false)]
    pub fn probability_on(
        &mut self,
        left_chord: Chord,
        right_chord: Chord,
        right_index: usize,
        gen_index: usize,
    ) -> (r: Result<Vec<u64>, Error>)
        requires
            old(self).wf(),
            right_index <= u32::MAX,
        ensures
            final(self).wf(),
            final(self).same_model(old(self)),
            old(self).transit_pow_cache@.submap_of(final(self).transit_pow_cache@),
            r == Err::<Vec<u64>, Error>(Error::InvalidRange)
                <==> (gen_index == 0 || right_index <= gen_index),
            (gen_index == 0 || right_index <= gen_index) ==> *final(self) == *old(self),
            0 < gen_index < right_index ==> ({
                &&& (r == Err::<Vec<u64>, Error>(Error::UnknownChord(left_chord))
                    <==> !old(self).map_forward@.contains(left_chord))
                &&& old(self).map_forward@.contains(left_chord)
                    ==> (r == Err::<Vec<u64>, Error>(Error::UnknownChord(right_chord))
                        <==> !old(self).map_forward@.contains(right_chord))
                &&& !old(self).map_forward@.contains(left_chord) ==> *final(self) == *old(self)
            }),
            0 < gen_index < right_index
                && old(self).map_forward@.contains(left_chord)
                && old(self).map_forward@.contains(right_chord) ==> ({
                let n = old(self).n_spec();
                let t = old(self).transit@;
                let l = old(self).id_of(left_chord);
                let rr = old(self).id_of(right_chord);
                &&& r is Err ==> (r->Err_0 == Error::ZeroProbabilityPath
                    || r->Err_0 == Error::Overflow)
                &&& r == Err::<Vec<u64>, Error>(Error::ZeroProbabilityPath)
                    ==> mat_pow(t, right_index as int, n)[rr][l] == 0
                &&& (mat_pow(t, right_index as int, n)[rr][l] == 0
                    && (forall|k: int| 2 <= k <= right_index
                        ==> mat_fits(#[trigger] mat_pow(t, k, n), n)))
                    ==> r == Err::<Vec<u64>, Error>(Error::ZeroProbabilityPath)
                &&& (mat_pow(t, right_index as int, n)[rr][l] != 0
                    && (forall|k: int| 2 <= k <= right_index
                        ==> mat_fits(#[trigger] mat_pow(t, k, n), n))) ==> r is Ok
                &&& r is Ok ==> ({
                    let w = r->Ok_0;
                    &&& w@.len() == n
                    &&& forall|x: int| 0 <= x < n
                        ==> #[trigger] (w@[x] as int)
                            == mat_pow(t, gen_index as int, n)[x][l]
                                * mat_pow(t, (right_index - gen_index) as int, n)[rr][x]
                    &&& weights_sum(w@, n) == mat_pow(t, right_index as int, n)[rr][l]
                    &&& weights_sum(w@, n) > 0
                    &&& weights_sum(w@, n) <= u64::MAX
                })
            }),
    {
        let ghost n = self.n_spec();
        let ghost t = self.transit@;
        if right_index <= gen_index || gen_index == 0 {
            return Err(Error::InvalidRange);
        }
        let l_ch = match self.chord_id(&left_chord) {
            Some(i) => i,
            None => {
                return Err(Error::UnknownChord(left_chord));
            },
        };
        let r_ch = match self.chord_id(&right_chord) {
            Some(i) => i,
            None => {
                return Err(Error::UnknownChord(right_chord));
            },
        };
        proof {
            assert(self.map_forward@.contains(left_chord));
            assert(self.map_forward@.contains(right_chord));
            assert(self.id_of(left_chord) == l_ch as int);
            assert(self.id_of(right_chord) == r_ch as int);
        }
        let ghost c0 = old(self).transit_pow_cache@;
        let p_r_g = match self.transit_pow((right_index - gen_index) as u32) {
            Ok(m) => m,
            Err(_) => {
                return Err(Error::Overflow);
            },
        };
        let ghost c1 = self.transit_pow_cache@;
        let p_g = match self.transit_pow(gen_index as u32) {
            Ok(m) => m,
            Err(_) => {
                proof {
                    lemma_submap_trans(c0, c1, self.transit_pow_cache@);
                }
                return Err(Error::Overflow);
            },
        };
        proof {
            lemma_submap_trans(c0, c1, self.transit_pow_cache@);
        }
        let ghost c2 = self.transit_pow_cache@;
        let p_r = match self.transit_pow(right_index as u32) {
            Ok(m) => m,
            Err(_) => {
                proof {
                    lemma_submap_trans(c0, c2, self.transit_pow_cache@);
                }
                return Err(Error::Overflow);
            },
        };
        proof {
            lemma_submap_trans(c0, c2, self.transit_pow_cache@);
        }
        let ghost ga = p_r_g@;
        let ghost gb = p_g@;
        proof {
            self.transit.lemma_ranges(n);
            assert(mat_nonneg(t, n));
            lemma_mat_pow_wf(t, (right_index - gen_index) as int, n);
            lemma_mat_pow_wf(t, gen_index as int, n);
            lemma_mat_pow_wf(t, right_index as int, n);
            lemma_mat_pow_add(t, (right_index - gen_index) as int, gen_index as int, n);
            assert(mat_pow(t, right_index as int, n) == mat_mul(ga, gb, n));
            p_r.lemma_ranges(n);
        }
        if p_r.entry(r_ch, l_ch) == 0 {
            return Err(Error::ZeroProbabilityPath);
        }
        let nn = self.map_forward.len();
        let mut w: Vec<u64> = Vec::new();
        let mut x: usize = 0;
        while x < nn
            invariant
                x <= nn,
                w@.len() == x,
                forall|u: int| 0 <= u < x
                    ==> #[trigger] (w@[u] as int) == gb[u][l_ch as int] * ga[r_ch as int][u],
            decreases nn - x,
        {
            proof {
                lemma_mul_entry_upto_bounds(ga, gb, r_ch as int, l_ch as int, x as int, n);
                lemma_mul_entry_upto_bounds(ga, gb, r_ch as int, l_ch as int, x as int + 1, n);
                assert(mat_pow(t, right_index as int, n)[r_ch as int][l_ch as int]
                    == mul_entry(ga, gb, r_ch as int, l_ch as int, n));
                assert(ga[r_ch as int][x as int] * gb[x as int][l_ch as int]
                    == gb[x as int][l_ch as int] * ga[r_ch as int][x as int])
                    by (nonlinear_arith);
            }
            let a = p_g.entry(x, l_ch);
            let b = p_r_g.entry(r_ch, x);
            w.push(a * b);
            x += 1;
        }
        proof {
            lemma_weights_sum_prod(w@, ga, gb, r_ch as int, l_ch as int, n);
            assert(weights_sum(w@, n)
                == mat_pow(t, right_index as int, n)[r_ch as int][l_ch as int]);
        }
        Ok(w)
    }
}

impl ChordGenerator {
    /// Generate a sequence of chords with length `number` with plain Markov
    /// chain model, or return an error.
    ///
    /// Each step draws the next chord from the current chord's column of the
    /// transition matrix, so every adjacent step of the output (and the step
    /// from `init_chord` into it) is a transition the training data holds.
    #[verifier::loop_isolation(false)]
    pub fn generate(
        &self,
        init_chord: Chord,
        number: usize,
        rng: &mut rand::rngs::StdRng,
    ) -> (r: Result<Vec<Chord>, Error>)
        requires
            self.wf(),
        ensures
            r is Ok <==> self.map_forward@.contains(init_chord),
            r is Err ==> r == Err::<Vec<Chord>, Error>(Error::UnknownChord(init_chord)),
            r is Ok ==> ({
                let v = r->Ok_0@;
                &&& v.len() == number
                &&& forall|u: int| 0 <= u < number
                    ==> self.map_forward@.contains(#[trigger] v[u])
                &&& number > 0 ==> self.possible_step(init_chord, v[0])
                &&& forall|u: int| 0 <= u < number - 1
                    ==> self.possible_step(#[trigger] v[u], v[u + 1])
            }),
    {
        let ghost n = self.n_spec();
        let mut cur = match self.chord_id(&init_chord) {
            Some(i) => i,
            None => {
                return Err(Error::UnknownChord(init_chord));
            },
        };
        proof {
            self.transit.lemma_ranges(n);
        }
        let nn = self.map_forward.len();
        let mut ans: Vec<Chord> = Vec::new();
        let mut step: usize = 0;
        while step < number
            invariant
                step <= number,
                ans@.len() == step,
                cur < nn,
                self.map_forward@[cur as int]
                    == if step == 0 { init_chord } else { ans@[step - 1] },
                forall|u: int| 0 <= u < step
                    ==> self.map_forward@.contains(#[trigger] ans@[u]),
                number > 0 && step > 0 ==> self.possible_step(init_chord, ans@[0]),
                forall|u: int| 0 <= u < step - 1
                    ==> self.possible_step(#[trigger] ans@[u], ans@[u + 1]),
            decreases number - step,
        {
            let mut w: Vec<u64> = Vec::new();
            let mut x: usize = 0;
            while x < nn
                invariant
                    x <= nn,
                    cur < nn,
                    w@.len() == x,
                    forall|u: int| 0 <= u < x
                        ==> #[trigger] (w@[u] as int) == self.transit@[u][cur as int],
                decreases nn - x,
            {
                w.push(self.transit.entry(x, cur));
                x += 1;
            }
            proof {
                lemma_weights_sum_col(w@, self.transit@, cur as int, n);
                lemma_columns_stochastic(self, cur as int);
                assert(weights_sum(w@, n) == self.scale as int);
            }
            let g = sample_weighted(&w, rng);
            proof {
                self.counts.lemma_ranges(n);
                let cs = self.col_sums@[cur as int] as int;
                assert(self.transit@[g as int][cur as int] * cs
                    == self.counts@[g as int][cur as int] * self.scale);
                assert(self.counts@[g as int][cur as int] > 0) by (nonlinear_arith)
                    requires
                        self.transit@[g as int][cur as int] * cs
                            == self.counts@[g as int][cur as int] * self.scale,
                        self.transit@[g as int][cur as int] > 0,
                        cs >= 1,
                        self.scale >= 1,
                        self.counts@[g as int][cur as int] >= 0;
                assert(self.possible_step(self.map_forward@[cur as int],
                    self.map_forward@[g as int]));
            }
            let gened = self.map_forward[g];
            ans.push(gened);
            cur = g;
            step += 1;
        }
        Ok(ans)
    }

    /// Fill `ans[lo..hi]` with randomly generated chords jointly consistent
    /// with the two boundary chords, which sit directly before index `lo`
    /// and directly after index `hi - 1`; return an error leaving no
    /// partial claim.
    ///
    /// The midpoint chord is drawn from the conditional distribution given
    /// both boundaries, then each half is filled recursively between the
    /// nearer boundary and the drawn chord.
    fn generate_fill(
        &mut self,
        ans: &mut Vec<Chord>,
        lo: usize,
        hi: usize,
        left_chord: Chord,
        right_chord: Chord,
        rng: &mut rand::rngs::StdRng,
    ) -> (r: Result<(), Error>)
        requires
            old(self).wf(),
            lo <= hi,
            hi <= old(ans)@.len(),
            hi - lo < u32::MAX,
        ensures
            final(self).wf(),
            final(self).same_model(old(self)),
            final(ans)@.len() == old(ans)@.len(),
            forall|u: int| 0 <= u < old(ans)@.len() && !(lo <= u < hi)
                ==> #[trigger] final(ans)@[u] == old(ans)@[u],
            r is Ok ==> forall|u: int| lo <= u < hi
                ==> old(self).map_forward@.contains(#[trigger] final(ans)@[u]),
            r is Ok && lo < hi ==> ({
                let a = final(ans)@;
                &&& old(self).possible_step(left_chord, a[lo as int])
                &&& old(self).possible_step(a[hi - 1], right_chord)
                &&& forall|u: int| lo <= u < hi - 1
                    ==> old(self).possible_step(#[trigger] a[u], a[u + 1])
            }),
            lo == hi ==> r is Ok && *final(self) == *old(self),
            old(self).transit_pow_cache@.submap_of(final(self).transit_pow_cache@),
            lo < hi ==> (r == Err::<(), Error>(Error::UnknownChord(left_chord))
                <==> !old(self).map_forward@.contains(left_chord)),
            lo < hi && old(self).map_forward@.contains(left_chord)
                ==> (r == Err::<(), Error>(Error::UnknownChord(right_chord))
                    <==> !old(self).map_forward@.contains(right_chord)),
            r matches Err(Error::UnknownChord(c))
                ==> !old(self).map_forward@.contains(c)
                    && (c == left_chord || c == right_chord),
            lo < hi
                && old(self).map_forward@.contains(left_chord)
                && old(self).map_forward@.contains(right_chord)
                && mat_pow(old(self).transit@, (hi - lo + 1) as int, old(self).n_spec())
                    [old(self).id_of(right_chord)][old(self).id_of(left_chord)] == 0
                && (forall|k: int| 2 <= k <= hi - lo + 1
                    ==> mat_fits(#[trigger] mat_pow(old(self).transit@, k,
                        old(self).n_spec()), old(self).n_spec()))
                ==> r == Err::<(), Error>(Error::ZeroProbabilityPath),
            r is Err ==> (r->Err_0 matches Error::UnknownChord(_)
                || r->Err_0 == Error::ZeroProbabilityPath
                || r->Err_0 == Error::Overflow),
        decreases hi - lo,
    {
        let ghost n = self.n_spec();
        let ghost t = self.transit@;
        let ghost c0 = old(self).transit_pow_cache@;
        if lo == hi {
            return Ok(());
        }
        let span = hi - lo;
        let mid = lo + span / 2;
        let w = match self.probability_on(left_chord, right_chord, span + 1, span / 2 + 1) {
            Ok(w) => w,
            Err(err) => {
                proof {
                    assert(!(err == Error::InvalidRange));
                }
                return Err(err);
            },
        };
        let ghost cq = self.transit_pow_cache@;
        let ghost l = old(self).id_of(left_chord);
        let ghost rr = old(self).id_of(right_chord);
        let ghost gi = span as int / 2 + 1;
        let ghost rgi = span as int - span as int / 2;
        proof {
            assert(self.map_forward@.contains(left_chord));
            assert(self.map_forward@.contains(right_chord));
            assert(weights_sum(w@, n) > 0);
            assert(mat_pow(t, (span + 1) as int, n)[rr][l] != 0);
            assert(0 <= l < n && old(self).map_forward@[l] == left_chord);
            assert(0 <= rr < n && old(self).map_forward@[rr] == right_chord);
            self.transit.lemma_ranges(n);
            lemma_mat_pow_wf(t, gi, n);
            lemma_mat_pow_wf(t, rgi, n);
        }
        let g = sample_weighted(&w, rng);
        proof {
            // A positive sampled weight means both conditional factors are
            // positive: the chord is reachable from the left boundary and
            // can reach the right one in the remaining steps.
            assert(w@[g as int] as int
                == mat_pow(t, gi, n)[g as int][l] * mat_pow(t, rgi, n)[rr][g as int]);
            assert(mat_pow(t, gi, n)[g as int][l] > 0
                && mat_pow(t, rgi, n)[rr][g as int] > 0) by (nonlinear_arith)
                requires
                    mat_pow(t, gi, n)[g as int][l] * mat_pow(t, rgi, n)[rr][g as int] > 0,
                    mat_pow(t, gi, n)[g as int][l] >= 0,
                    mat_pow(t, rgi, n)[rr][g as int] >= 0;
        }
        let gened = self.map_forward[g];
        proof {
            assert(old(self).map_forward@.contains(gened));
        }
        ans[mid] = gened;
        let ghost m1 = *self;
        let ghost a1 = ans@;
        match self.generate_fill(ans, lo, mid, left_chord, gened, rng) {
            Ok(()) => {},
            Err(err) => {
                proof {
                    lemma_submap_trans(c0, cq, self.transit_pow_cache@);
                }
                return Err(err);
            },
        }
        proof {
            lemma_submap_trans(c0, cq, self.transit_pow_cache@);
        }
        let ghost m2 = *self;
        let ghost a2 = ans@;
        match self.generate_fill(ans, mid + 1, hi, gened, right_chord, rng) {
            Ok(()) => {},
            Err(err) => {
                proof {
                    lemma_submap_trans(c0, m2.transit_pow_cache@, self.transit_pow_cache@);
                }
                return Err(err);
            },
        }
        proof {
            lemma_submap_trans(c0, m2.transit_pow_cache@, self.transit_pow_cache@);
        }
        proof {
            let a = ans@;
            assert(a[mid as int] == gened);
            // The link from the left boundary into the filled range.
            if lo == mid {
                assert(gi == 1);
                assert(t[g as int][l] > 0);
                lemma_one_step(old(self), g as int, l);
                assert(old(self).possible_step(left_chord, a[lo as int]));
            } else {
                lemma_step_carries(&m1, old(self), left_chord, a[lo as int]);
                lemma_step_carries(&m1, old(self), a[mid - 1], gened);
            }
            // The link from the filled range to the right boundary.
            if mid + 1 == hi {
                assert(rgi == 1);
                assert(t[rr][g as int] > 0);
                lemma_one_step(old(self), rr, g as int);
                assert(old(self).possible_step(gened, right_chord));
            } else {
                lemma_step_carries(&m2, old(self), gened, a[mid + 1]);
                lemma_step_carries(&m2, old(self), a[hi - 1], right_chord);
            }
            assert forall|u: int| lo <= u < hi - 1
                implies old(self).possible_step(#[trigger] a[u], a[u + 1]) by {
                if u < mid - 1 {
                    lemma_step_carries(&m1, old(self), a[u], a[u + 1]);
                } else if u == mid - 1 {
                    lemma_step_carries(&m1, old(self), a[mid - 1], gened);
                } else if u == mid {
                    if mid + 1 < hi {
                        lemma_step_carries(&m2, old(self), gened, a[mid + 1]);
                    }
                } else {
                    lemma_step_carries(&m2, old(self), a[u], a[u + 1]);
                }
            }
        }
        Ok(())
    }

    /// Give the chord at index `0` and `right_index`, returns a randomly
    /// generated sequence for the interior indices `1` through
    /// `right_index - 1` (both boundaries excluded) or returns an error.
    ///
    /// The result holds exactly `right_index - 1` interior chords, each of
    /// them seen in training, and the whole path from the left boundary
    /// through the interior to the right boundary steps only through
    /// transitions the training data holds.  An empty interior
    /// (`right_index == 1`, the right chord directly after the left) always
    /// succeeds.
    pub fn generate_range(
        &mut self,
        left_chord: Chord,
        right_chord: Chord,
        right_index: usize,
        rng: &mut rand::rngs::StdRng,
    ) -> (r: Result<Vec<Chord>, Error>)
        requires
            old(self).wf(),
            1 <= right_index <= u32::MAX,
        ensures
            final(self).wf(),
            final(self).same_model(old(self)),
            old(self).transit_pow_cache@.submap_of(final(self).transit_pow_cache@),
            r is Ok ==> ({
                let v = r->Ok_0@;
                &&& v.len() == right_index - 1
                &&& forall|u: int| 0 <= u < v.len()
                    ==> old(self).map_forward@.contains(#[trigger] v[u])
            }),
            r is Ok && right_index > 1 ==> ({
                let v = r->Ok_0@;
                &&& old(self).possible_step(left_chord, v[0])
                &&& old(self).possible_step(v[v.len() - 1], right_chord)
                &&& forall|u: int| 0 <= u < v.len() - 1
                    ==> old(self).possible_step(#[trigger] v[u], v[u + 1])
            }),
            right_index == 1 ==> r is Ok,
            right_index > 1 ==> (r == Err::<Vec<Chord>, Error>(Error::UnknownChord(left_chord))
                <==> !old(self).map_forward@.contains(left_chord)),
            right_index > 1 && old(self).map_forward@.contains(left_chord)
                ==> (r == Err::<Vec<Chord>, Error>(Error::UnknownChord(right_chord))
                    <==> !old(self).map_forward@.contains(right_chord)),
            r matches Err(Error::UnknownChord(c))
                ==> !old(self).map_forward@.contains(c)
                    && (c == left_chord || c == right_chord),
            right_index > 1
                && old(self).map_forward@.contains(left_chord)
                && old(self).map_forward@.contains(right_chord)
                && mat_pow(old(self).transit@, right_index as int, old(self).n_spec())
                    [old(self).id_of(right_chord)][old(self).id_of(left_chord)] == 0
                && (forall|k: int| 2 <= k <= right_index
                    ==> mat_fits(#[trigger] mat_pow(old(self).transit@, k,
                        old(self).n_spec()), old(self).n_spec()))
                ==> r == Err::<Vec<Chord>, Error>(Error::ZeroProbabilityPath),
            r is Err ==> (r->Err_0 matches Error::UnknownChord(_)
                || r->Err_0 == Error::ZeroProbabilityPath
                || r->Err_0 == Error::Overflow),
    {
        let span = right_index - 1;
        let mut ans: Vec<Chord> = Vec::new();
        let mut q: usize = 0;
        while q < span
            invariant
                q <= span,
                ans@.len() == q,
            decreases span - q,
        {
            ans.push(Chord::default());
            q += 1;
        }
        match self.generate_fill(&mut ans, 0, span, left_chord, right_chord, rng) {
            Ok(()) => Ok(ans),
            Err(err) => Err(err),
        }
    }
}

/// A positive scaled-transition entry is a transition the training data
/// holds.
proof fn lemma_one_step(g: &ChordGenerator, i: int, j: int)
    requires
        g.wf(),
        0 <= i < g.n_spec(),
        0 <= j < g.n_spec(),
        g.transit@[i][j] > 0,
    ensures
        g.possible_step(g.map_forward@[j], g.map_forward@[i]),
{
    g.counts.lemma_ranges(g.n_spec());
    assert(g.transit@[i][j] * g.col_sums@[j] == g.counts@[i][j] * g.scale);
    assert(g.counts@[i][j] > 0) by (nonlinear_arith)
        requires
            g.transit@[i][j] * g.col_sums@[j] == g.counts@[i][j] * g.scale,
            g.transit@[i][j] > 0,
            g.col_sums@[j] >= 1,
            g.scale >= 1,
            g.counts@[i][j] >= 0;
}

/// Map inclusion is transitive; used to chain the cache growth of
/// consecutive power computations.
proof fn lemma_submap_trans(a: Map<u32, Matrix>, b: Map<u32, Matrix>, c: Map<u32, Matrix>)
    requires
        a.submap_of(b),
        b.submap_of(c),
    ensures
        a.submap_of(c),
{
    assert forall|k: u32| #[trigger] a.dom().contains(k)
        implies c.dom().contains(k) && a[k] == c[k] by {
        let in_b = b.dom().contains(k);
        let in_c = c.dom().contains(k);
        assert(b.dom().contains(k) && a[k] == b[k]);
        assert(c.dom().contains(k) && b[k] == c[k]);
    }
}

/// A possible step depends only on the trained model, not on the cache.
proof fn lemma_step_carries(a: &ChordGenerator, b: &ChordGenerator, x: Chord, y: Chord)
    requires
        a.possible_step(x, y),
        a.map_forward@ == b.map_forward@,
        a.counts@ == b.counts@,
    ensures
        b.possible_step(x, y),
{
    let (i, j) = choose|i: int, j: int|
        0 <= i < a.n_spec() && 0 <= j < a.n_spec()
            && a.map_forward@[i] == y && a.map_forward@[j] == x
            && #[trigger] (a.counts@[i][j]) > 0;
    assert(0 <= i < b.n_spec() && 0 <= j < b.n_spec()
        && b.map_forward@[i] == y && b.map_forward@[j] == x
        && b.counts@[i][j] > 0);
}

/// Every column of the transition matrix sums to the scale: divided by the
/// common scale, the matrix is exactly column-stochastic.
pub proof fn lemma_columns_stochastic(g: &ChordGenerator, j: int)
    requires
        g.wf(),
        0 <= j < g.n_spec(),
    ensures
        col_sum(g.transit@, j, g.n_spec()) == g.scale as int,
{
    let n = g.n_spec();
    let cs = g.col_sums@[j] as int;
    lemma_scaled_col(g, j, n);
    assert(col_sum_upto(g.counts@, j, n) == cs);
    assert(col_sum_upto(g.transit@, j, n) == g.scale as int) by (nonlinear_arith)
        requires
            col_sum_upto(g.transit@, j, n) * cs == cs * (g.scale as int),
            cs >= 1;
}

/// Column sums of the scaled matrix relate to column sums of the counts.
proof fn lemma_scaled_col(g: &ChordGenerator, j: int, k: int)
    requires
        g.wf(),
        0 <= j < g.n_spec(),
        0 <= k <= g.n_spec(),
    ensures
        col_sum_upto(g.transit@, j, k) * (g.col_sums@[j] as int)
            == col_sum_upto(g.counts@, j, k) * (g.scale as int),
    decreases k,
{
    let cs = g.col_sums@[j] as int;
    let sc = g.scale as int;
    if k > 0 {
        lemma_scaled_col(g, j, k - 1);
        let st = col_sum_upto(g.transit@, j, k - 1);
        let sc2 = col_sum_upto(g.counts@, j, k - 1);
        assert(g.transit@[k - 1][j] * cs == g.counts@[k - 1][j] * sc);
        assert((st + g.transit@[k - 1][j]) * cs == (sc2 + g.counts@[k - 1][j]) * sc)
            by (nonlinear_arith)
            requires
                st * cs == sc2 * sc,
                g.transit@[k - 1][j] * cs == g.counts@[k - 1][j] * sc;
    }
}

/// The alphabet is a bijection between chords seen in training and ids:
/// looking up the chord stored at any id gives that id back.
pub proof fn lemma_alphabet_bijection(g: &ChordGenerator, i: int)
    requires
        g.wf(),
        0 <= i < g.n_spec(),
    ensures
        g.id_of(g.map_forward@[i]) == i,
{
    let c = g.map_forward@[i];
    assert(0 <= i < g.n_spec() && g.map_forward@[i] == c);
    let w = g.id_of(c);
    assert(0 <= w < g.n_spec() && g.map_forward@[w] == c);
}

/// Powers of the transition matrix compose additively, the algebraic fact
/// behind both binary exponentiation and the conditional distribution.
pub proof fn lemma_power_composes(g: &ChordGenerator, a: int, b: int)
    requires
        g.wf(),
        a >= 1,
        b >= 1,
    ensures
        mat_pow(g.transit@, a + b, g.n_spec())
            == mat_mul(mat_pow(g.transit@, a, g.n_spec()),
                mat_pow(g.transit@, b, g.n_spec()), g.n_spec()),
{
    g.transit.lemma_ranges(g.n_spec());
    lemma_mat_pow_add(g.transit@, a, b, g.n_spec());
}

/// A weight vector whose entries are the termwise products of a row of `a`
/// and a column of `b` sums to the matching product entry.
proof fn lemma_weights_sum_prod(
    w: Seq<u64>,
    a: Seq<Seq<int>>,
    b: Seq<Seq<int>>,
    r: int,
    l: int,
    k: int,
)
    requires
        forall|u: int| 0 <= u < k ==> #[trigger] (w[u] as int) == b[u][l] * a[r][u],
    ensures
        weights_sum(w, k) == mul_entry_upto(a, b, r, l, k),
    decreases k,
{
    if k > 0 {
        lemma_weights_sum_prod(w, a, b, r, l, k - 1);
        assert(b[k - 1][l] * a[r][k - 1] == a[r][k - 1] * b[k - 1][l]) by (nonlinear_arith);
    }
}

/// A weight vector that copies column `j` of a matrix sums to that column's
/// sum.
proof fn lemma_weights_sum_col(w: Seq<u64>, m: Seq<Seq<int>>, j: int, k: int)
    requires
        forall|u: int| 0 <= u < k ==> #[trigger] (w[u] as int) == m[u][j],
    ensures
        weights_sum(w, k) == col_sum_upto(m, j, k),
    decreases k,
{
    if k > 0 {
        lemma_weights_sum_col(w, m, j, k - 1);
    }
}

} // verus!
