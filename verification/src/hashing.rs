//! The hash accumulator: it turns a key's byte representation plus a random
//! displacement table into one scalar bucket index.  Two accumulators with
//! independent tables run side by side and produce the pair `(f1, f2)`.

use vstd::prelude::*;
use vstd::arithmetic::div_mod::{lemma_add_mod_noop_right, lemma_mod_bound};

verus! {

/// Sum of `t[i] * bytes[i]` over all of `bytes`; the raw accumulated value
/// before reduction modulo the bucket count.
pub open spec fn spec_weighted_sum(t: Seq<usize>, bytes: Seq<u8>) -> int
    decreases bytes.len(),
{
    if bytes.len() == 0 {
        0
    } else {
        spec_weighted_sum(t, bytes.drop_last()) + (t[bytes.len() - 1] as int) * (
        bytes.last() as int)
    }
}

/// The bytes of a key that contribute to its hash: positions at or past the
/// displacement table's length are ignored (an explicit truncation policy).
pub open spec fn spec_contributing(bytes: Seq<u8>, max_len: int) -> Seq<u8> {
    if bytes.len() <= max_len {
        bytes
    } else {
        bytes.take(max_len)
    }
}

/// The hash of a byte string under displacement table `t`, reduced modulo `n`.
pub open spec fn spec_hash(t: Seq<usize>, bytes: Seq<u8>, n: int) -> int {
    spec_weighted_sum(t, spec_contributing(bytes, t.len() as int)) % n
}

/// A pair of running hash sums over one byte stream, each kept reduced modulo
/// the bucket count `n` so that no accumulation can overflow.
pub struct PerfectHashState<'a> {
    /// First displacement table; its length bounds how many bytes contribute.
    pub t1: &'a [usize],
    /// Second displacement table; must have the same length as the first.
    pub t2: &'a [usize],
    /// Number of byte positions that contribute to the hashes.
    pub max_length: usize,
    /// Bucket count: both hash values land in `[0, n)`.
    pub n: usize,
    /// Number of known keys; carried along for callers, unused by hashing.
    pub m: usize,
    /// Next contributing byte position, capped at `max_length`.
    pub i: usize,
    /// Running first sum, always reduced modulo `n`.
    pub u: usize,
    /// Running second sum, always reduced modulo `n`.
    pub v: usize,
    /// The byte stream absorbed so far.
    pub absorbed: Ghost<Seq<u8>>,
}

impl<'a> PerfectHashState<'a> {
    /// Both running sums agree with the specification hash of the bytes
    /// absorbed so far.
    pub open spec fn wf(self) -> bool {
        &&& self.n >= 1
        &&& self.t1@.len() == self.max_length
        &&& self.t2@.len() == self.max_length
        &&& self.i == if self.absorbed@.len() <= self.max_length {
            self.absorbed@.len() as int
        } else {
            self.max_length as int
        }
        &&& self.u < self.n
        &&& self.v < self.n
        &&& self.u == spec_weighted_sum(
            self.t1@,
            spec_contributing(self.absorbed@, self.max_length as int),
        ) % (self.n as int)
        &&& self.v == spec_weighted_sum(
            self.t2@,
            spec_contributing(self.absorbed@, self.max_length as int),
        ) % (self.n as int)
    }

    /// A fresh accumulator pair over tables `t1` and `t2`, with nothing
    /// absorbed yet.
    pub fn new(t1: &'a [usize], t2: &'a [usize], n: usize, m: usize) -> (s: PerfectHashState<'a>)
        requires
            n >= 1,
            t1@.len() == t2@.len(),
        ensures
            s.wf(),
            s.absorbed@ == Seq::<u8>::empty(),
            s.t1@ == t1@,
            s.t2@ == t2@,
            s.n == n,
            s.m == m,
            s.max_length == t1@.len(),
    {
        proof {
            assert(spec_contributing(Seq::<u8>::empty(), t1@.len() as int)
                =~= Seq::<u8>::empty());
            vstd::arithmetic::div_mod::lemma_small_mod(0nat, n as nat);
        }
        PerfectHashState {
            t1,
            t2,
            max_length: t1.len(),
            n,
            m,
            i: 0,
            u: 0,
            v: 0,
            absorbed: Ghost(Seq::empty()),
        }
    }

    /// Absorb `bytes` into both running sums, each kept reduced modulo `n`.
    /// Bytes past the tables' length do not contribute.
    pub fn write(&mut self, bytes: &[u8])
        requires
            old(self).wf(),
        ensures
            final(self).wf(),
            final(self).absorbed@ == old(self).absorbed@ + bytes@,
            final(self).t1@ == old(self).t1@,
            final(self).t2@ == old(self).t2@,
            final(self).n == old(self).n,
            final(self).m == old(self).m,
            final(self).max_length == old(self).max_length,
    {
        let ghost init = *self;
        let ghost prefix = self.absorbed@;
        let mut j: usize = 0;
        while j < bytes.len() && self.i < self.max_length
            invariant
                j <= bytes@.len(),
                self.t1@ == init.t1@,
                self.t2@ == init.t2@,
                self.n == init.n,
                self.m == init.m,
                self.max_length == init.max_length,
                self.absorbed@ == prefix + bytes@.take(j as int),
                self.wf(),
            decreases bytes@.len() - j,
        {
            let b = bytes[j];
            let ghost before = spec_contributing(self.absorbed@, self.max_length as int);
            proof {
                // The stream is still short of the cap, so the new byte
                // contributes at the position `self.i`.
                assert(self.absorbed@.len() == self.i);
                assert(before == self.absorbed@);
            }
            let t1i = self.t1[self.i];
            let t2i = self.t2[self.i];
            proof {
                vstd::arithmetic::mul::lemma_mul_upper_bound(
                    t1i as int,
                    usize::MAX as int,
                    b as int,
                    255,
                );
                vstd::arithmetic::mul::lemma_mul_upper_bound(
                    t2i as int,
                    usize::MAX as int,
                    b as int,
                    255,
                );
            }
            let un: u128 = ((self.u as u128) + (t1i as u128) * (b as u128)) % (self.n as u128);
            let vn: u128 = ((self.v as u128) + (t2i as u128) * (b as u128)) % (self.n as u128);
            proof {
                lemma_mod_bound(
                    (self.u as u128 + t1i as u128 * b as u128) as int,
                    self.n as int,
                );
                lemma_mod_bound(
                    (self.v as u128 + t2i as u128 * b as u128) as int,
                    self.n as int,
                );
                let s1 = spec_weighted_sum(self.t1@, before);
                let s2 = spec_weighted_sum(self.t2@, before);
                lemma_add_mod_noop_right(t1i as int * b as int, s1, self.n as int);
                lemma_add_mod_noop_right(t2i as int * b as int, s2, self.n as int);
                assert(before.push(b).drop_last() =~= before);
            }
            self.u = un as usize;
            self.v = vn as usize;
            self.i = self.i + 1;
            proof {
                self.absorbed@ = self.absorbed@.push(b);
                assert(spec_contributing(self.absorbed@, self.max_length as int)
                    =~= before.push(b));
                assert(self.absorbed@ =~= prefix + bytes@.take(j as int + 1));
            }
            j = j + 1;
        }
        proof {
            let whole = prefix + bytes@;
            if j == bytes@.len() {
                assert(bytes@.take(j as int) =~= bytes@);
                self.absorbed@ = whole;
            } else {
                // The cap was reached: the remaining bytes do not contribute.
                assert(self.i == self.max_length);
                assert(self.absorbed@.len() >= self.max_length);
                assert(spec_contributing(whole, self.max_length as int)
                    =~= spec_contributing(self.absorbed@, self.max_length as int));
                self.absorbed@ = whole;
            }
        }
    }

    /// The first hash value, in `[0, n)`.
    pub fn get_u(&self) -> (r: usize)
        requires
            self.wf(),
        ensures
            r == spec_hash(self.t1@, self.absorbed@, self.n as int),
            r < self.n,
    {
        proof {
            vstd::arithmetic::div_mod::lemma_small_mod(self.u as nat, self.n as nat);
        }
        self.u % self.n
    }

    /// The second hash value, in `[0, n)`.
    pub fn get_v(&self) -> (r: usize)
        requires
            self.wf(),
        ensures
            r == spec_hash(self.t2@, self.absorbed@, self.n as int),
            r < self.n,
    {
        proof {
            vstd::arithmetic::div_mod::lemma_small_mod(self.v as nat, self.n as nat);
        }
        self.v % self.n
    }
}

/// Counts how many bytes a key's representation feeds to an accumulator; used
/// to size the displacement tables before construction.
pub struct ByteCounter {
    /// Number of bytes seen so far.
    pub i: usize,
}

impl ByteCounter {
    /// A counter that has seen no bytes.
    pub fn new() -> (c: ByteCounter)
        ensures
            c.i == 0,
    {
        ByteCounter { i: 0 }
    }

    /// Record `bytes` as seen.
    pub fn write(&mut self, bytes: &[u8])
        requires
            old(self).i + bytes@.len() <= usize::MAX,
        ensures
            final(self).i == old(self).i + bytes@.len(),
    {
        self.i = self.i + bytes.len();
    }

    /// How many bytes were seen.
    pub fn get_count(&self) -> (r: usize)
        ensures
            r == self.i,
    {
        self.i
    }
}

/// Relies on `rand::random`: one 64-bit value drawn from the thread-local
/// generator.  Nothing is assumed of the value drawn.
#[verifier::external_body]
fn random_usize() -> usize {
    rand::random::<u64>() as usize
}

/// A freshly drawn displacement table: `len` random values, each reduced into
/// `[0, n)`.  Regenerated in full on every construction retry.
pub fn gen_table(n: usize, len: usize) -> (t: Vec<usize>)
    requires
        n >= 1,
    ensures
        t@.len() == len,
        forall|i: int| 0 <= i < len ==> t@[i] < n,
{
    let mut t: Vec<usize> = Vec::new();
    let mut k: usize = 0;
    while k < len
        invariant
            n >= 1,
            k <= len,
            t@.len() == k,
            forall|i: int| 0 <= i < k ==> t@[i] < n,
        decreases len - k,
    {
        let x = random_usize();
        t.push(x % n);
        k = k + 1;
    }
    t
}

/// Both bucket indices of one key under the two displacement tables.
pub fn hash_pair(key: &Vec<u8>, t1: &Vec<usize>, t2: &Vec<usize>, n: usize, m: usize) -> (r: (
    usize,
    usize,
))
    requires
        n >= 1,
        t1@.len() == t2@.len(),
    ensures
        r.0 == spec_hash(t1@, key@, n as int),
        r.1 == spec_hash(t2@, key@, n as int),
        r.0 < n,
        r.1 < n,
{
    let mut state = PerfectHashState::new(t1.as_slice(), t2.as_slice(), n, m);
    state.write(key.as_slice());
    proof {
        assert(state.absorbed@ =~= key@);
    }
    (state.get_u(), state.get_v())
}

} // verus!
