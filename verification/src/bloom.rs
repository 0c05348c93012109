//! Deterministic Bloom representations and split-horizon replacement accounting.

use vstd::prelude::*;
use vstd::string::{StringExecFns, StrSliceExecFns};
use crate::labels::push_decimal;
use crate::digest::{sha256, sha256_digest, le_bytes, le_word, push_le, digest_word};
use crate::mixing::{wrap_add, wrap_mul};
use crate::network::{decimal, lookup, unique_keys, lemma_lookup_at, lemma_lookup_update, lemma_lookup_push};

verus! {

broadcast use vstd::array::group_array_axioms;

/// Pinned FIPS v1 Bloom defaults.
pub const DEFAULT_BITS: usize = 8192;
/// Pinned FIPS v1 double-hash count.
pub const DEFAULT_HASH_COUNT: u8 = 5;
/// Executable-codec FilterAnnounce message bytes.
pub const FILTER_ANNOUNCE_BYTES: u64 = 1035;
/// Established FMP bytes for one FilterAnnounce.
pub const FILTER_ANNOUNCE_FMP_BYTES: u64 = 1071;

/// Bloom fidelity selected for a run.
#[derive(Debug, Clone, Copy, PartialEq, Eq, Structural)]
pub enum BloomMode {
    /// Packed production-equivalent bit vector.
    ExactBits,
    /// Sorted exact bit indices.
    SparseBits,
    /// Seeded statistical occupancy only.
    Occupancy,
}

/// A mode-specific Bloom filter with stable behavior.
#[derive(Debug, Clone, PartialEq, Eq)]
pub enum BloomModel {
    /// Packed exact bits.
    Exact {
        /// Bit storage, bit `i` at bit `i % 8` of byte `i / 8`.
        bits: Vec<u8>,
        /// Hash functions.
        hash_count: u8,
    },
    /// Sparse exact set-bit indices.
    Sparse {
        /// Set bits in ascending order.
        bits: Vec<usize>,
        /// Filter width.
        num_bits: usize,
        /// Hash functions.
        hash_count: u8,
        /// Maximum sparse population before callers should cross over.
        crossover_bits: usize,
    },
    /// Occupancy approximation with no per-item state.
    Occupancy {
        /// Filter width.
        num_bits: usize,
        /// Hash functions.
        hash_count: u8,
        /// Approximate set-bit count.
        occupied_bits: u64,
        /// Inserted element count.
        insertions: u64,
    },
}

/// Bloom modeling error.
#[derive(Debug, Clone, Copy, PartialEq, Eq, Structural)]
pub enum BloomError {
    /// Width or hash count differs.
    Incompatible,
    /// Exact, sparse, and occupancy representations cannot be directly unioned.
    ModeMismatch,
}

/// Whether bit `i` is set in packed storage.
pub open spec fn bit_set(bytes: Seq<u8>, i: int) -> bool {
    (bytes[i / 8] >> ((i % 8) as u8)) & 1u8 == 1u8
}

/// Ascending without repeats.
pub open spec fn ascending(s: Seq<usize>) -> bool {
    forall|i: int, j: int| 0 <= i < j < s.len() ==> #[trigger] s[i] < #[trigger] s[j]
}

/// Number of `i < k` for which `f(i)` holds.
pub open spec fn count_set(k: nat, f: spec_fn(int) -> bool) -> nat
    decreases k,
{
    if k == 0 {
        0
    } else {
        count_set((k - 1) as nat, f) + if f(k - 1) { 1nat } else { 0nat }
    }
}

/// The bit positions probed for a value: double hashing with the two leading
/// little-endian words of its SHA-256 digest, `h1 + k * h2` (wrapping) modulo the width.
pub open spec fn spec_indexes_from_digest(digest: Seq<u8>, num_bits: usize, hash_count: u8) -> Seq<usize> {
    let h1 = le_word(digest, 0) as u64;
    let h2 = le_word(digest, 8) as u64;
    Seq::new(hash_count as nat, |k: int| ((wrap_add(h1, wrap_mul(k as u64, h2)) as usize) % num_bits) as usize)
}

/// The bit positions probed for a value.
pub open spec fn spec_indexes(value: Seq<u8>, num_bits: usize, hash_count: u8) -> Seq<usize> {
    spec_indexes_from_digest(sha256(value), num_bits, hash_count)
}

/// Whether every probed position of a value is set.
pub open spec fn spec_all_set(m: BloomModel, probes: Seq<usize>) -> bool {
    forall|k: int| 0 <= k < probes.len() ==> m.spec_has_bit(#[trigger] probes[k] as int)
}

impl BloomModel {
    /// Active representation.
    pub open spec fn spec_mode(&self) -> BloomMode {
        match self {
            BloomModel::Exact { .. } => BloomMode::ExactBits,
            BloomModel::Sparse { .. } => BloomMode::SparseBits,
            BloomModel::Occupancy { .. } => BloomMode::Occupancy,
        }
    }

    /// Filter width.
    pub open spec fn spec_num_bits(&self) -> nat {
        match self {
            BloomModel::Exact { bits, .. } => bits@.len() * 8,
            BloomModel::Sparse { num_bits, .. } => *num_bits as nat,
            BloomModel::Occupancy { num_bits, .. } => *num_bits as nat,
        }
    }

    /// Hash count.
    pub open spec fn spec_hash_count(&self) -> u8 {
        match self {
            BloomModel::Exact { hash_count, .. } => *hash_count,
            BloomModel::Sparse { hash_count, .. } => *hash_count,
            BloomModel::Occupancy { hash_count, .. } => *hash_count,
        }
    }

    /// Whether bit `i` is set; the occupancy representation keeps no bits.
    pub open spec fn spec_has_bit(&self, i: int) -> bool {
        match self {
            BloomModel::Exact { bits, .. } => 0 <= i < bits@.len() * 8 && bit_set(bits@, i),
            BloomModel::Sparse { bits, .. } => 0 <= i && bits@.contains(i as usize),
            BloomModel::Occupancy { .. } => false,
        }
    }

    /// Set-bit occupancy: the number of set bits, or the occupancy estimate.
    pub open spec fn spec_occupied(&self) -> nat {
        match self {
            BloomModel::Occupancy { occupied_bits, .. } => *occupied_bits as nat,
            _ => count_set(self.spec_num_bits(), |i: int| self.spec_has_bit(i)),
        }
    }

    /// Positive width that is a multiple of eight, at least one hash, and sparse
    /// indices ascending below the width.
    pub open spec fn wf(&self) -> bool {
        &&& self.spec_num_bits() > 0
        &&& self.spec_num_bits() % 8 == 0
        &&& self.spec_num_bits() <= usize::MAX
        &&& self.spec_hash_count() > 0
        &&& match self {
            BloomModel::Sparse { bits, num_bits, .. } => ascending(bits@) && forall|k: int|
                0 <= k < bits@.len() ==> #[trigger] bits@[k] < *num_bits,
            _ => true,
        }
    }

    /// Same representation and parameters, bits aside.
    pub open spec fn same_shape(&self, other: &BloomModel) -> bool {
        &&& self.spec_mode() == other.spec_mode()
        &&& self.spec_num_bits() == other.spec_num_bits()
        &&& self.spec_hash_count() == other.spec_hash_count()
        &&& match (self, other) {
            (BloomModel::Sparse { crossover_bits: a, .. }, BloomModel::Sparse { crossover_bits: b, .. }) => a == b,
            _ => true,
        }
    }
}

proof fn lemma_or_bit(b: u8, k: u8, j: u8)
    by (bit_vector)
    requires
        k < 8,
        j < 8,
    ensures
        ((b | (1u8 << k)) >> j) & 1u8 == 1u8 <==> ((b >> j) & 1u8 == 1u8 || j == k),
{
}

proof fn lemma_or_bytes(a: u8, c: u8, j: u8)
    by (bit_vector)
    requires
        j < 8,
    ensures
        ((a | c) >> j) & 1u8 == 1u8 <==> ((a >> j) & 1u8 == 1u8 || (c >> j) & 1u8 == 1u8),
{
}

proof fn lemma_count_bound(k: nat, f: spec_fn(int) -> bool)
    ensures
        count_set(k, f) <= k,
    decreases k,
{
    if k > 0 {
        lemma_count_bound((k - 1) as nat, f);
    }
}

proof fn lemma_count_ext(k: nat, f: spec_fn(int) -> bool, g: spec_fn(int) -> bool)
    requires
        forall|i: int| 0 <= i < k ==> #[trigger] f(i) == g(i),
    ensures
        count_set(k, f) == count_set(k, g),
    decreases k,
{
    if k > 0 {
        lemma_count_ext((k - 1) as nat, f, g);
    }
}

proof fn lemma_count_flip(k: nat, f: spec_fn(int) -> bool, g: spec_fn(int) -> bool, x: int)
    requires
        0 <= x < k,
        !f(x),
        g(x),
        forall|i: int| 0 <= i < k && i != x ==> #[trigger] f(i) == g(i),
    ensures
        count_set(k, g) == count_set(k, f) + 1,
    decreases k,
{
    if k - 1 == x {
        lemma_count_ext((k - 1) as nat, f, g);
    } else {
        lemma_count_flip((k - 1) as nat, f, g, x);
    }
}

proof fn lemma_count_none(k: nat, f: spec_fn(int) -> bool)
    requires
        forall|i: int| 0 <= i < k ==> !#[trigger] f(i),
    ensures
        count_set(k, f) == 0,
    decreases k,
{
    if k > 0 {
        lemma_count_none((k - 1) as nat, f);
    }
}

/// An ascending sequence below `n` counts its members.
proof fn lemma_ascending_count(s: Seq<usize>, n: nat)
    requires
        ascending(s),
        n <= usize::MAX,
        forall|k: int| 0 <= k < s.len() ==> #[trigger] s[k] < n,
    ensures
        count_set(n, |i: int| 0 <= i && s.contains(i as usize)) == s.len(),
    decreases s.len(),
{
    let f = |i: int| 0 <= i && s.contains(i as usize);
    if s.len() == 0 {
        lemma_count_none(n, f);
    } else {
        let t = s.drop_last();
        let last = s.last();
        assert forall|k: int| 0 <= k < t.len() implies #[trigger] t[k] < n by {
            assert(t[k] == s[k]);
        }
        assert(ascending(t)) by {
            assert forall|i: int, j: int| 0 <= i < j < t.len() implies #[trigger] t[i] < #[trigger] t[j] by {
                assert(t[i] == s[i] && t[j] == s[j]);
            }
        }
        lemma_ascending_count(t, n);
        let g = |i: int| 0 <= i && t.contains(i as usize);
        assert(!g(last as int)) by {
            if t.contains(last) {
                let k = choose|k: int| 0 <= k < t.len() && t[k] == last;
                assert(s[k] < s[s.len() - 1]);
            }
        }
        assert(f(last as int)) by {
            assert(s[s.len() - 1] == last);
        }
        assert forall|i: int| 0 <= i < n && i != last as int implies #[trigger] g(i) == f(i) by {
            if 0 <= i && s.contains(i as usize) {
                let k = choose|k: int| 0 <= k < s.len() && s[k] == i as usize;
                if k < s.len() - 1 {
                    assert(t[k] == s[k]);
                }
            }
            if 0 <= i && t.contains(i as usize) {
                let k = choose|k: int| 0 <= k < t.len() && t[k] == i as usize;
                assert(s[k] == t[k]);
            }
        }
        assert(last < n) by {
            assert(s[s.len() - 1] == last);
        }
        lemma_count_flip(n, g, f, last as int);
    }
}

/// Insert an index into an ascending vector unless present.
fn ascending_insert(v: &mut Vec<usize>, c: usize)
    requires
        ascending(old(v)@),
    ensures
        ascending(final(v)@),
        forall|x: usize| #[trigger] final(v)@.contains(x) <==> (old(v)@.contains(x) || x == c),
{
    let mut p: usize = 0;
    while p < v.len() && v[p] < c
        invariant
            p <= v@.len(),
            forall|k: int| 0 <= k < p ==> #[trigger] v@[k] < c,
        decreases v@.len() - p,
    {
        p = p + 1;
    }
    if p < v.len() && v[p] == c {
        assert(v@[p as int] == c);
        return;
    }
    let ghost before = v@;
    v.insert(p, c);
    assert forall|x: usize| #[trigger] v@.contains(x) <==> (before.contains(x) || x == c) by {
        if v@.contains(x) {
            let k = choose|k: int| 0 <= k < v@.len() && v@[k] == x;
            if k < p {
                assert(before[k] == x);
            } else if k > p {
                assert(before[k - 1] == x);
            }
        }
        if before.contains(x) {
            let k = choose|k: int| 0 <= k < before.len() && before[k] == x;
            if k < p {
                assert(v@[k] == x);
            } else {
                assert(v@[k + 1] == x);
            }
        }
        if x == c {
            assert(v@[p as int] == c);
        }
    }
    assert forall|i: int, j: int| 0 <= i < j < v@.len() implies #[trigger] v@[i] < #[trigger] v@[j] by {
        if p < before.len() {
            assert(before[p as int] >= c);
        }
        if i < p && j == p {
        } else if i < p && j > p {
            assert(before[i] < c);
        } else if i == p && j > p {
            assert(before[j - 1] >= before[p as int]);
        } else if i < p && j < p {
            assert(before[i] < before[j]);
        } else {
            assert(before[i - 1] < before[j - 1]);
        }
    }
}

proof fn lemma_push_contains<T>(s: Seq<T>, e: T, x: T)
    ensures
        s.push(e).contains(x) <==> (s.contains(x) || x == e),
{
    if s.push(e).contains(x) {
        let j = choose|j: int| 0 <= j < s.len() + 1 && s.push(e)[j] == x;
        if j < s.len() {
            assert(s[j] == x);
        }
    }
    if s.contains(x) {
        let j = choose|j: int| 0 <= j < s.len() && s[j] == x;
        assert(s.push(e)[j] == x);
    }
    if x == e {
        assert(s.push(e)[s.len() as int] == x);
    }
}

proof fn lemma_zero_byte(j: u8)
    by (bit_vector)
    requires
        j < 8,
    ensures
        (0u8 >> j) & 1u8 != 1u8,
{
}

/// Set the probed bits of packed storage.
fn set_probes(bits: &mut Vec<u8>, probes: &Vec<usize>)
    requires
        old(bits)@.len() * 8 <= usize::MAX,
        forall|k: int| 0 <= k < probes@.len() ==> (#[trigger] probes@[k]) < old(bits)@.len() * 8,
    ensures
        final(bits)@.len() == old(bits)@.len(),
        forall|i: int| 0 <= i < final(bits)@.len() * 8 ==> (#[trigger] bit_set(final(bits)@, i) <==> (bit_set(old(bits)@, i)
            || probes@.contains(i as usize))),
{
    let ghost b0 = bits@;
    let mut k: usize = 0;
    while k < probes.len()
        invariant
            bits@.len() == b0.len(),
            b0.len() * 8 <= usize::MAX,
            k <= probes@.len(),
            forall|t: int| 0 <= t < probes@.len() ==> (#[trigger] probes@[t]) < b0.len() * 8,
            forall|i: int| 0 <= i < b0.len() * 8 ==> (#[trigger] bit_set(bits@, i) <==> (bit_set(b0, i)
                || probes@.take(k as int).contains(i as usize))),
        decreases probes@.len() - k,
    {
        let index = probes[k];
        let q = index / 8;
        let r = (index % 8) as u8;
        let ghost before = bits@;
        let b = bits[q];
        bits.set(q, b | (1u8 << r));
        proof {
            assert forall|i: int| 0 <= i < b0.len() * 8 implies (#[trigger] bit_set(bits@, i) <==> (bit_set(b0, i)
                || probes@.take(k + 1).contains(i as usize))) by {
                let j = (i % 8) as u8;
                assert(i == 8 * (i / 8) + i % 8);
                assert(index == 8 * q + r);
                if i / 8 == q {
                    lemma_or_bit(b, r, j);
                } else {
                    assert(bits@[i / 8] == before[i / 8]);
                }
                assert(probes@.take(k + 1) =~= probes@.take(k as int).push(index));
                lemma_push_contains(probes@.take(k as int), index, i as usize);
                assert(bit_set(bits@, i) <==> (bit_set(before, i) || i == index));
            }
        }
        k = k + 1;
    }
    assert(probes@.take(k as int) =~= probes@);
}

/// Add the probed bits to ascending sparse storage.
fn add_probes(bits: &mut Vec<usize>, probes: &Vec<usize>)
    requires
        ascending(old(bits)@),
    ensures
        ascending(final(bits)@),
        forall|x: usize| #[trigger] final(bits)@.contains(x) <==> (old(bits)@.contains(x) || probes@.contains(x)),
{
    let ghost b0 = bits@;
    let mut k: usize = 0;
    while k < probes.len()
        invariant
            ascending(bits@),
            k <= probes@.len(),
            forall|x: usize| #[trigger] bits@.contains(x) <==> (b0.contains(x) || probes@.take(k as int).contains(x)),
        decreases probes@.len() - k,
    {
        ascending_insert(bits, probes[k]);
        proof {
            let t = probes@.take(k as int);
            assert(probes@.take(k + 1) =~= t.push(probes@[k as int]));
            assert forall|x: usize| #[trigger] t.push(probes@[k as int]).contains(x) <==> (t.contains(x) || x == probes@[k as int]) by {
                lemma_push_contains(t, probes@[k as int], x);
            }
        }
        k = k + 1;
    }
    assert(probes@.take(k as int) =~= probes@);
}

/// Whether every probed bit is set in packed storage.
fn all_set_packed(bits: &Vec<u8>, probes: &Vec<usize>) -> (r: bool)
    requires
        forall|k: int| 0 <= k < probes@.len() ==> (#[trigger] probes@[k]) < bits@.len() * 8,
    ensures
        r == forall|k: int| 0 <= k < probes@.len() ==> bit_set(bits@, #[trigger] probes@[k] as int),
{
    let mut k: usize = 0;
    while k < probes.len()
        invariant
            k <= probes@.len(),
            forall|t: int| 0 <= t < probes@.len() ==> (#[trigger] probes@[t]) < bits@.len() * 8,
            forall|t: int| 0 <= t < k ==> bit_set(bits@, #[trigger] probes@[t] as int),
        decreases probes@.len() - k,
    {
        let index = probes[k];
        let r = (index % 8) as u8;
        if (bits[index / 8] >> r) & 1u8 != 1u8 {
            assert(!bit_set(bits@, probes@[k as int] as int));
            return false;
        }
        k = k + 1;
    }
    true
}

/// Whether every probed bit is present in sparse storage.
fn all_set_sparse(bits: &Vec<usize>, probes: &Vec<usize>) -> (r: bool)
    ensures
        r == forall|k: int| 0 <= k < probes@.len() ==> bits@.contains(#[trigger] probes@[k]),
{
    let mut k: usize = 0;
    while k < probes.len()
        invariant
            k <= probes@.len(),
            forall|t: int| 0 <= t < k ==> bits@.contains(#[trigger] probes@[t]),
        decreases probes@.len() - k,
    {
        let index = probes[k];
        let mut i: usize = 0;
        let mut found = false;
        while i < bits.len()
            invariant
                i <= bits@.len(),
                found ==> bits@.contains(index),
                !found ==> forall|t: int| 0 <= t < i ==> bits@[t] != index,
            decreases bits@.len() - i,
        {
            if bits[i] == index {
                assert(bits@[i as int] == index);
                found = true;
            }
            i = i + 1;
        }
        if !found {
            assert(!bits@.contains(probes@[k as int]));
            return false;
        }
        k = k + 1;
    }
    true
}

/// OR packed storage of equal length.
fn or_packed(left: &mut Vec<u8>, right: &Vec<u8>)
    requires
        old(left)@.len() == right@.len(),
    ensures
        final(left)@.len() == old(left)@.len(),
        forall|i: int| 0 <= i < final(left)@.len() * 8 ==> (#[trigger] bit_set(final(left)@, i) <==> (bit_set(old(left)@, i)
            || bit_set(right@, i))),
{
    let ghost l0 = left@;
    let mut q: usize = 0;
    while q < left.len()
        invariant
            left@.len() == l0.len() == right@.len(),
            q <= l0.len(),
            forall|t: int| 0 <= t < q ==> #[trigger] left@[t] == (l0[t] | right@[t]),
            forall|t: int| q <= t < l0.len() ==> #[trigger] left@[t] == l0[t],
        decreases l0.len() - q,
    {
        let b = left[q] | right[q];
        left.set(q, b);
        q = q + 1;
    }
    assert forall|i: int| 0 <= i < left@.len() * 8 implies (#[trigger] bit_set(left@, i) <==> (bit_set(l0, i)
        || bit_set(right@, i))) by {
        lemma_or_bytes(l0[i / 8], right@[i / 8], (i % 8) as u8);
    }
}

/// The bit positions probed for a value, from its digest.
pub fn indexes_from_digest(digest: &[u8; 32], num_bits: usize, hash_count: u8) -> (r: Vec<usize>)
    requires
        num_bits > 0,
    ensures
        r@ == spec_indexes_from_digest(digest@, num_bits, hash_count),
        forall|k: int| 0 <= k < r@.len() ==> #[trigger] r@[k] < num_bits,
{
    let h1 = digest_word(digest, 0);
    let h2 = digest_word(digest, 8);
    let mut out: Vec<usize> = Vec::new();
    let mut k: u8 = 0;
    while k < hash_count
        invariant
            num_bits > 0,
            k <= hash_count,
            h1 == le_word(digest@, 0),
            h2 == le_word(digest@, 8),
            out@ == spec_indexes_from_digest(digest@, num_bits, hash_count).take(k as int),
        decreases hash_count - k,
    {
        let mixed = h1.wrapping_add((k as u64).wrapping_mul(h2));
        out.push((mixed as usize) % num_bits);
        k = k + 1;
        assert(out@ =~= spec_indexes_from_digest(digest@, num_bits, hash_count).take(k as int));
    }
    assert(out@ =~= spec_indexes_from_digest(digest@, num_bits, hash_count));
    out
}

fn indexes(value: &[u8], num_bits: usize, hash_count: u8) -> (r: Vec<usize>)
    requires
        num_bits > 0,
    ensures
        r@ == spec_indexes(value@, num_bits, hash_count),
        forall|k: int| 0 <= k < r@.len() ==> #[trigger] r@[k] < num_bits,
{
    let digest = sha256_digest(value);
    indexes_from_digest(&digest, num_bits, hash_count)
}

impl BloomModel {
    /// Create a FIPS-v1-sized representation.
    pub fn new(mode: BloomMode) -> (r: Self)
        ensures
            r.wf(),
            r.spec_mode() == mode,
            r.spec_num_bits() == DEFAULT_BITS,
            r.spec_hash_count() == DEFAULT_HASH_COUNT,
            forall|i: int| !#[trigger] r.spec_has_bit(i),
            r.spec_occupied() == 0,
            r matches BloomModel::Sparse { crossover_bits, .. } ==> crossover_bits == DEFAULT_BITS / 8,
            r matches BloomModel::Occupancy { insertions, .. } ==> insertions == 0,
    {
        Self::with_params(mode, DEFAULT_BITS, DEFAULT_HASH_COUNT)
    }

    /// Create a representation with explicit parameters.
    pub fn with_params(mode: BloomMode, num_bits: usize, hash_count: u8) -> (r: Self)
        requires
            num_bits > 0,
            num_bits % 8 == 0,
            hash_count > 0,
        ensures
            r.wf(),
            r.spec_mode() == mode,
            r.spec_num_bits() == num_bits,
            r.spec_hash_count() == hash_count,
            forall|i: int| !#[trigger] r.spec_has_bit(i),
            r.spec_occupied() == 0,
            r matches BloomModel::Sparse { crossover_bits, .. } ==> crossover_bits == num_bits / 8,
            r matches BloomModel::Occupancy { insertions, .. } ==> insertions == 0,
    {
        let r = match mode {
            BloomMode::ExactBits => {
                let mut bits: Vec<u8> = Vec::new();
                let mut q: usize = 0;
                while q < num_bits / 8
                    invariant
                        q <= num_bits / 8,
                        bits@.len() == q,
                        forall|t: int| 0 <= t < q ==> #[trigger] bits@[t] == 0u8,
                    decreases num_bits / 8 - q,
                {
                    bits.push(0u8);
                    q = q + 1;
                }
                assert forall|i: int| 0 <= i < bits@.len() * 8 implies !#[trigger] bit_set(bits@, i) by {
                    lemma_zero_byte((i % 8) as u8);
                }
                BloomModel::Exact { bits, hash_count }
            },
            BloomMode::SparseBits => BloomModel::Sparse {
                bits: Vec::new(),
                num_bits,
                hash_count,
                crossover_bits: num_bits / 8,
            },
            BloomMode::Occupancy => BloomModel::Occupancy { num_bits, hash_count, occupied_bits: 0, insertions: 0 },
        };
        proof {
            lemma_count_none(r.spec_num_bits(), |i: int| r.spec_has_bit(i));
        }
        r
    }

    /// Active representation.
    pub fn mode(&self) -> (r: BloomMode)
        ensures
            r == self.spec_mode(),
    {
        match self {
            BloomModel::Exact { .. } => BloomMode::ExactBits,
            BloomModel::Sparse { .. } => BloomMode::SparseBits,
            BloomModel::Occupancy { .. } => BloomMode::Occupancy,
        }
    }

    /// Filter width.
    pub fn num_bits(&self) -> (r: usize)
        requires
            self.wf(),
        ensures
            r == self.spec_num_bits(),
    {
        match self {
            BloomModel::Exact { bits, .. } => bits.len() * 8,
            BloomModel::Sparse { num_bits, .. } => *num_bits,
            BloomModel::Occupancy { num_bits, .. } => *num_bits,
        }
    }

    /// Hash count.
    pub fn hash_count(&self) -> (r: u8)
        ensures
            r == self.spec_hash_count(),
    {
        match self {
            BloomModel::Exact { hash_count, .. } => *hash_count,
            BloomModel::Sparse { hash_count, .. } => *hash_count,
            BloomModel::Occupancy { hash_count, .. } => *hash_count,
        }
    }

    /// Whether sparse storage has reached its declared crossover.
    pub fn sparse_crossover_reached(&self) -> (r: bool)
        ensures
            r == (self matches BloomModel::Sparse { bits, crossover_bits, .. } && bits@.len() >= *crossover_bits),
    {
        match self {
            BloomModel::Sparse { bits, crossover_bits, .. } => bits.len() >= *crossover_bits,
            _ => false,
        }
    }

    /// Insert one byte string and return modeled bitwise work. The exact and sparse
    /// representations set the probed bits; the occupancy representation counts the
    /// insertion and keeps its occupancy estimate, which is recomputed in floating point
    /// outside this library.
    pub fn insert(&mut self, value: &[u8]) -> (r: u64)
        requires
            old(self).wf(),
            *old(self) matches BloomModel::Occupancy { insertions, .. } ==> insertions < u64::MAX,
        ensures
            final(self).wf(),
            final(self).same_shape(old(self)),
            r == old(self).spec_hash_count(),
            match *old(self) {
                BloomModel::Occupancy { num_bits, hash_count, occupied_bits, insertions } => *final(self)
                    == BloomModel::Occupancy { num_bits, hash_count, occupied_bits, insertions: (insertions + 1) as u64 },
                _ => forall|x: usize| #[trigger] final(self).spec_has_bit(x as int) <==> (old(self).spec_has_bit(x as int)
                    || spec_indexes(value@, old(self).spec_num_bits() as usize, old(self).spec_hash_count()).contains(x)),
            },
            !(*old(self) is Occupancy) ==> bit_insert_outcome(*old(self), *final(self), value@),
    {
        let nb = self.num_bits();
        let hc = self.hash_count();
        let mut current = BloomModel::Occupancy { num_bits: 8, hash_count: 1, occupied_bits: 0, insertions: 0 };
        std::mem::swap(self, &mut current);
        let next = match current {
            BloomModel::Exact { mut bits, hash_count } => {
                let probes = indexes(value, nb, hc);
                let ghost b0 = bits@;
                set_probes(&mut bits, &probes);
                let ghost m = BloomModel::Exact { bits, hash_count };
                assert forall|x: usize| #[trigger] m.spec_has_bit(x as int) <==> (current.spec_has_bit(x as int)
                    || probes@.contains(x)) by {
                    if x < b0.len() * 8 {
                        assert(bit_set(bits@, x as int) <==> (bit_set(b0, x as int) || probes@.contains(x)));
                    } else if probes@.contains(x) {
                        let k = choose|k: int| 0 <= k < probes@.len() && probes@[k] == x;
                        assert(probes@[k] < nb);
                    }
                }
                BloomModel::Exact { bits, hash_count }
            },
            BloomModel::Sparse { mut bits, num_bits, hash_count, crossover_bits } => {
                let probes = indexes(value, nb, hc);
                let ghost b0 = bits@;
                add_probes(&mut bits, &probes);
                assert forall|k: int| 0 <= k < bits@.len() implies #[trigger] bits@[k] < num_bits by {
                    assert(bits@.contains(bits@[k]));
                    if b0.contains(bits@[k]) {
                        let t = choose|t: int| 0 <= t < b0.len() && b0[t] == bits@[k];
                        assert(b0[t] < num_bits);
                    } else {
                        let t = choose|t: int| 0 <= t < probes@.len() && probes@[t] == bits@[k];
                        assert(probes@[t] < nb);
                    }
                }
                let ghost m = BloomModel::Sparse { bits, num_bits, hash_count, crossover_bits };
                assert forall|x: usize| #[trigger] m.spec_has_bit(x as int) <==> (current.spec_has_bit(x as int)
                    || probes@.contains(x)) by {
                    assert(bits@.contains(x) <==> (b0.contains(x) || probes@.contains(x)));
                }
                BloomModel::Sparse { bits, num_bits, hash_count, crossover_bits }
            },
            BloomModel::Occupancy { num_bits, hash_count, occupied_bits, insertions } => {
                BloomModel::Occupancy { num_bits, hash_count, occupied_bits, insertions: insertions + 1 }
            },
        };
        *self = next;
        hc as u64
    }

    /// Exact membership for the exact and sparse representations: every probed bit set.
    /// `known_present` answers `true` at once, keeping Bloom's no-false-negative contract
    /// when an outside population model knows the value was inserted. The occupancy
    /// representation answers `None`: it decides by comparing `seeded_draw` against its
    /// floating-point false-positive rate, outside this library.
    pub fn contains_seeded(&self, value: &[u8], seed: u64, query_ordinal: u64, known_present: bool) -> (r: Option<bool>)
        requires
            self.wf(),
        ensures
            known_present ==> r == Some(true),
            !known_present ==> r == match *self {
                BloomModel::Occupancy { .. } => None,
                _ => Some(spec_all_set(*self, spec_indexes(value@, self.spec_num_bits() as usize, self.spec_hash_count()))),
            },
    {
        if known_present {
            return Some(true);
        }
        let nb = self.num_bits();
        let hc = self.hash_count();
        match self {
            BloomModel::Exact { bits, .. } => {
                let probes = indexes(value, nb, hc);
                let all = all_set_packed(bits, &probes);
                assert(all == spec_all_set(*self, probes@)) by {
                    assert forall|k: int| 0 <= k < probes@.len() implies (#[trigger] self.spec_has_bit(probes@[k] as int)
                        <==> bit_set(bits@, probes@[k] as int)) by {
                        assert(probes@[k] < nb);
                    }
                }
                Some(all)
            },
            BloomModel::Sparse { bits, .. } => {
                let probes = indexes(value, nb, hc);
                let all = all_set_sparse(bits, &probes);
                assert(all == spec_all_set(*self, probes@)) by {
                    assert forall|k: int| 0 <= k < probes@.len() implies (#[trigger] self.spec_has_bit(probes@[k] as int)
                        <==> bits@.contains(probes@[k])) by {
                    }
                }
                Some(all)
            },
            BloomModel::Occupancy { .. } => None,
        }
    }

    /// Union another compatible model into this one and return modeled bytewise work.
    /// Two occupancy models add their insertion counts; their combined occupancy
    /// estimate is recomputed in floating point outside this library.
    pub fn union_assign(&mut self, other: &Self) -> (r: Result<u64, BloomError>)
        requires
            old(self).wf(),
            other.wf(),
        ensures
            old(self).spec_num_bits() != other.spec_num_bits() || old(self).spec_hash_count() != other.spec_hash_count()
                ==> r == Err::<u64, BloomError>(BloomError::Incompatible) && *final(self) == *old(self),
            old(self).spec_num_bits() == other.spec_num_bits() && old(self).spec_hash_count() == other.spec_hash_count()
                && old(self).spec_mode() != other.spec_mode()
                ==> r == Err::<u64, BloomError>(BloomError::ModeMismatch) && *final(self) == *old(self),
            old(self).spec_num_bits() == other.spec_num_bits() && old(self).spec_hash_count() == other.spec_hash_count()
                && old(self).spec_mode() == other.spec_mode() ==> {
                &&& r == Ok::<u64, BloomError>((old(self).spec_num_bits() / 8) as u64)
                &&& final(self).wf()
                &&& final(self).same_shape(old(self))
                &&& match (*old(self), *other) {
                    (
                        BloomModel::Occupancy { num_bits, hash_count, occupied_bits, insertions },
                        BloomModel::Occupancy { insertions: more, .. },
                    ) => *final(self) == BloomModel::Occupancy {
                        num_bits,
                        hash_count,
                        occupied_bits,
                        insertions: if insertions + more > u64::MAX { u64::MAX } else { (insertions + more) as u64 },
                    },
                    _ => forall|x: usize| #[trigger] final(self).spec_has_bit(x as int) <==> (old(self).spec_has_bit(x as int)
                        || other.spec_has_bit(x as int)),
                }
            },
    {
        let nb = self.num_bits();
        if nb != other.num_bits() || self.hash_count() != other.hash_count() {
            return Err(BloomError::Incompatible);
        }
        let work = (nb / 8) as u64;
        match (&*self, other) {
            (BloomModel::Exact { .. }, BloomModel::Exact { .. }) => {},
            (BloomModel::Sparse { .. }, BloomModel::Sparse { .. }) => {},
            (BloomModel::Occupancy { .. }, BloomModel::Occupancy { .. }) => {},
            _ => {
                return Err(BloomError::ModeMismatch);
            },
        }
        let mut current = BloomModel::Occupancy { num_bits: 8, hash_count: 1, occupied_bits: 0, insertions: 0 };
        std::mem::swap(self, &mut current);
        let next = match (current, other) {
            (BloomModel::Exact { mut bits, hash_count }, BloomModel::Exact { bits: right, .. }) => {
                let ghost b0 = bits@;
                or_packed(&mut bits, right);
                let ghost m = BloomModel::Exact { bits, hash_count };
                assert forall|x: usize| #[trigger] m.spec_has_bit(x as int) <==> (current.spec_has_bit(x as int)
                    || other.spec_has_bit(x as int)) by {
                    if x < b0.len() * 8 {
                        assert(bit_set(bits@, x as int) <==> (bit_set(b0, x as int) || bit_set(right@, x as int)));
                    }
                }
                BloomModel::Exact { bits, hash_count }
            },
            (BloomModel::Sparse { mut bits, num_bits, hash_count, crossover_bits }, BloomModel::Sparse { bits: right, .. }) => {
                let ghost b0 = bits@;
                add_probes(&mut bits, right);
                assert forall|k: int| 0 <= k < bits@.len() implies #[trigger] bits@[k] < num_bits by {
                    assert(bits@.contains(bits@[k]));
                    if b0.contains(bits@[k]) {
                        let t = choose|t: int| 0 <= t < b0.len() && b0[t] == bits@[k];
                        assert(b0[t] < num_bits);
                    } else {
                        let t = choose|t: int| 0 <= t < right@.len() && right@[t] == bits@[k];
                        assert(right@[t] < num_bits);
                    }
                }
                let ghost m = BloomModel::Sparse { bits, num_bits, hash_count, crossover_bits };
                assert forall|x: usize| #[trigger] m.spec_has_bit(x as int) <==> (current.spec_has_bit(x as int)
                    || other.spec_has_bit(x as int)) by {
                    assert(bits@.contains(x) <==> (b0.contains(x) || right@.contains(x)));
                }
                BloomModel::Sparse { bits, num_bits, hash_count, crossover_bits }
            },
            (
                BloomModel::Occupancy { num_bits, hash_count, occupied_bits, insertions },
                BloomModel::Occupancy { insertions: more, .. },
            ) => BloomModel::Occupancy { num_bits, hash_count, occupied_bits, insertions: insertions.saturating_add(*more) },
            (stale, _) => stale,
        };
        *self = next;
        Ok(work)
    }

    /// Set-bit occupancy.
    pub fn occupied_bits(&self) -> (r: u64)
        requires
            self.wf(),
        ensures
            r == self.spec_occupied(),
    {
        let nb = self.num_bits();
        match self {
            BloomModel::Exact { bits, .. } => {
                let ghost f = |i: int| self.spec_has_bit(i);
                let mut count: u64 = 0;
                let mut i: usize = 0;
                while i < nb
                    invariant
                        nb == self.spec_num_bits(),
                        nb == bits@.len() * 8,
                        *self == (BloomModel::Exact { bits: *bits, hash_count: self.spec_hash_count() }),
                        f == (|i: int| self.spec_has_bit(i)),
                        i <= nb,
                        count == count_set(i as nat, f),
                        count <= i,
                    decreases nb - i,
                {
                    let set = (bits[i / 8] >> ((i % 8) as u8)) & 1u8 == 1u8;
                    assert(set == f(i as int));
                    if set {
                        count = count + 1;
                    }
                    i = i + 1;
                }
                count
            },
            BloomModel::Sparse { bits, num_bits, .. } => {
                proof {
                    lemma_ascending_count(bits@, *num_bits as nat);
                    lemma_count_ext(*num_bits as nat, |i: int| 0 <= i && bits@.contains(i as usize), |i: int| self.spec_has_bit(i));
                }
                bits.len() as u64
            },
            BloomModel::Occupancy { occupied_bits, .. } => *occupied_bits,
        }
    }

}

/// Peer role for split-horizon reporting.
#[derive(Debug, Clone, Copy, PartialEq, Eq, PartialOrd, Ord, Structural)]
pub enum PeerRole {
    /// Current tree parent.
    Parent,
    /// Current tree child.
    Child,
    /// Non-tree peer.
    Mesh,
}

/// Sends by destination role; a role never sent to stands at zero.
#[derive(Debug, Clone, Copy, PartialEq, Eq, Structural)]
pub struct RoleCounts {
    /// Sends to the tree parent.
    pub parent: u64,
    /// Sends to tree children.
    pub child: u64,
    /// Sends to mesh peers.
    pub mesh: u64,
}

/// The count of one role.
pub open spec fn spec_role_count(c: RoleCounts, role: PeerRole) -> u64 {
    match role {
        PeerRole::Parent => c.parent,
        PeerRole::Child => c.child,
        PeerRole::Mesh => c.mesh,
    }
}

impl RoleCounts {
    /// The count of one role.
    pub fn count(&self, role: PeerRole) -> (r: u64)
        ensures
            r == spec_role_count(*self, role),
    {
        match role {
            PeerRole::Parent => self.parent,
            PeerRole::Child => self.child,
            PeerRole::Mesh => self.mesh,
        }
    }
}

/// Exact replacement-wave accounting.
#[derive(Debug, Clone, Copy, PartialEq, Eq, Structural)]
pub struct BloomWaveCounters {
    /// Role-sensitive outgoing recomputations.
    pub recomputations: u64,
    /// Modeled bytewise OR/hash work.
    pub bitwise_operations: u64,
    /// Replacement requests.
    pub requested: u64,
    /// Requests folded into a pending replacement.
    pub coalesced: u64,
    /// Constructed full replacements.
    pub constructed: u64,
    /// Sent replacements.
    pub sent: u64,
    /// FPR/MTU rejections.
    pub rejected: u64,
    /// Exact serialized message bytes.
    pub message_bytes: u64,
    /// Exact established-FMP bytes.
    pub fmp_bytes: u64,
    /// Sends by destination role.
    pub by_role: RoleCounts,
}

/// All-zero wave counters.
pub open spec fn spec_zero_wave_counters() -> BloomWaveCounters {
    BloomWaveCounters {
        recomputations: 0,
        bitwise_operations: 0,
        requested: 0,
        coalesced: 0,
        constructed: 0,
        sent: 0,
        rejected: 0,
        message_bytes: 0,
        fmp_bytes: 0,
        by_role: RoleCounts { parent: 0, child: 0, mesh: 0 },
    }
}

impl Default for BloomWaveCounters {
    fn default() -> (r: Self)
        ensures
            r == spec_zero_wave_counters(),
    {
        BloomWaveCounters {
            recomputations: 0,
            bitwise_operations: 0,
            requested: 0,
            coalesced: 0,
            constructed: 0,
            sent: 0,
            rejected: 0,
            message_bytes: 0,
            fmp_bytes: 0,
            by_role: RoleCounts { parent: 0, child: 0, mesh: 0 },
        }
    }
}

/// One accepted full replacement entering the shared link service.
#[derive(Debug, Clone, PartialEq, Eq)]
pub struct BloomTransmission {
    /// Initiating semantic action.
    pub causal_id: String,
    /// Stable destination-peer key.
    pub peer: u32,
    /// Destination role.
    pub role: PeerRole,
    /// Virtual send time.
    pub at_ns: u64,
    /// Exact established-FMP bytes.
    pub frame_bytes: u64,
}

/// A pending replacement: peer, then due time, role and causal identifier.
pub type PendingReplacement = (u32, (u64, PeerRole, String));

/// Peers ascend without repeats.
pub open spec fn peers_ascending(s: Seq<PendingReplacement>) -> bool {
    forall|i: int, j: int| 0 <= i < j < s.len() ==> (#[trigger] s[i]).0 < (#[trigger] s[j]).0
}

/// Whether a pending replacement is due at `now`.
pub open spec fn spec_due(e: PendingReplacement, now: u64) -> bool {
    e.1.0 <= now
}

/// The due-at-`now` predicate.
pub open spec fn due_at(now: u64) -> spec_fn(PendingReplacement) -> bool {
    |e: PendingReplacement| spec_due(e, now)
}

/// The not-yet-due-at-`now` predicate.
pub open spec fn waiting_at(now: u64) -> spec_fn(PendingReplacement) -> bool {
    |e: PendingReplacement| !spec_due(e, now)
}

/// The bound-for-`role` predicate.
pub open spec fn bound_for(role: PeerRole) -> spec_fn(PendingReplacement) -> bool {
    |e: PendingReplacement| e.1.1 == role
}

/// Pending replacements due at `now`, in peer order.
pub open spec fn spec_due_entries(s: Seq<PendingReplacement>, now: u64) -> Seq<PendingReplacement> {
    s.filter(due_at(now))
}

/// Pending replacements not yet due at `now`, in peer order.
pub open spec fn spec_waiting_entries(s: Seq<PendingReplacement>, now: u64) -> Seq<PendingReplacement> {
    s.filter(waiting_at(now))
}

/// How many replacements go to a role.
pub open spec fn spec_role_total(s: Seq<PendingReplacement>, role: PeerRole) -> nat {
    s.filter(bound_for(role)).len()
}

/// The transmission record of a sent replacement.
pub open spec fn spec_transmission(e: PendingReplacement) -> BloomTransmission {
    BloomTransmission { causal_id: e.1.2, peer: e.0, role: e.1.1, at_ns: e.1.0, frame_bytes: FILTER_ANNOUNCE_FMP_BYTES }
}

/// Whether a flush refuses what it constructs: the false-positive rate is over its cap,
/// or one FilterAnnounce does not fit the MTU.
pub open spec fn spec_flush_rejects(fpr_exceeded: bool, mtu: u64) -> bool {
    fpr_exceeded || FILTER_ANNOUNCE_FMP_BYTES > mtu
}

/// The request lifecycle balances: every request is coalesced, constructed or pending,
/// every construction is sent or rejected, and bytes follow sends.
pub open spec fn spec_wave_balanced(c: BloomWaveCounters, pending: nat) -> bool {
    &&& c.requested == c.coalesced + c.constructed + pending
    &&& c.constructed == c.sent + c.rejected
    &&& c.message_bytes == c.sent * FILTER_ANNOUNCE_BYTES
    &&& c.fmp_bytes == c.sent * FILTER_ANNOUNCE_FMP_BYTES
}

/// `bloom:peer-{peer}` with the peer's decimal digits zero-padded to eight.
pub open spec fn spec_peer_label(peer: u32) -> Seq<char> {
    let digits = decimal(peer as nat);
    let pad = if digits.len() < 8 { (8 - digits.len()) as nat } else { 0 };
    "bloom:peer-"@ + Seq::new(pad, |i: int| '0') + digits
}

/// The default causal identifier of a peer's replacement, written digit by digit.
fn peer_label(peer: u32) -> (r: String)
    ensures
        r@ == spec_peer_label(peer),
{
    let mut digits = String::new();
    push_decimal(&mut digits, peer as u64);
    let len = digits.as_str().unicode_len();
    let pad: usize = if len < 8 { 8 - len } else { 0 };
    let mut s = String::from_str("bloom:peer-");
    let mut i: usize = 0;
    proof {
        reveal_strlit("0");
        assert(s@ =~= "bloom:peer-"@ + Seq::new(0, |k: int| '0'));
    }
    while i < pad
        invariant
            i <= pad,
            s@ == "bloom:peer-"@ + Seq::new(i as nat, |k: int| '0'),
        decreases pad - i,
    {
        let ghost before = s@;
        s.append("0");
        proof {
            reveal_strlit("0");
            assert(s@ =~= "bloom:peer-"@ + Seq::new((i + 1) as nat, |k: int| '0'));
        }
        i = i + 1;
    }
    s.append(digits.as_str());
    s
}

proof fn lemma_ascending_unique(s: Seq<PendingReplacement>)
    requires
        peers_ascending(s),
    ensures
        unique_keys(s),
{
    assert forall|a: int, b: int| 0 <= a < s.len() && 0 <= b < s.len() && a != b implies (#[trigger] s[a]).0 != (#[trigger] s[b]).0 by {
        if a < b {
            assert(s[a].0 < s[b].0);
        } else {
            assert(s[b].0 < s[a].0);
        }
    }
}

proof fn lemma_ascending_filter(s: Seq<PendingReplacement>, p: spec_fn(PendingReplacement) -> bool)
    requires
        peers_ascending(s),
    ensures
        peers_ascending(s.filter(p)),
        forall|i: int| 0 <= i < s.filter(p).len() ==> s.contains(#[trigger] s.filter(p)[i]),
    decreases s.len(),
{
    reveal(Seq::filter);
    if s.len() > 0 {
        let rest = s.drop_last();
        assert(peers_ascending(rest)) by {
            assert forall|i: int, j: int| 0 <= i < j < rest.len() implies (#[trigger] rest[i]).0 < (#[trigger] rest[j]).0 by {
                assert(rest[i] == s[i] && rest[j] == s[j]);
            }
        }
        lemma_ascending_filter(rest, p);
        let f = rest.filter(p);
        assert forall|i: int| 0 <= i < f.len() implies s.contains(#[trigger] f[i]) by {
            assert(rest.contains(f[i]));
            let k = choose|k: int| 0 <= k < rest.len() && rest[k] == f[i];
            assert(s[k] == rest[k]);
        }
        if p(s.last()) {
            let out = f.push(s.last());
            assert forall|i: int, j: int| 0 <= i < j < out.len() implies (#[trigger] out[i]).0 < (#[trigger] out[j]).0 by {
                if j < f.len() {
                    assert(out[i] == f[i] && out[j] == f[j]);
                } else {
                    assert(out[i] == f[i]);
                    assert(rest.contains(f[i]));
                    let k = choose|k: int| 0 <= k < rest.len() && rest[k] == f[i];
                    assert(s[k] == rest[k]);
                    assert(s[k].0 < s[s.len() - 1].0);
                }
            }
            assert forall|i: int| 0 <= i < out.len() implies s.contains(#[trigger] out[i]) by {
                if i < f.len() {
                    assert(out[i] == f[i]);
                } else {
                    assert(s[s.len() - 1] == out[i]);
                }
            }
        }
    }
}

/// What a replacement request does to the scheduler, besides storing its causal identifier.
pub open spec fn spec_request_outcome(
    old: BloomReplacementWave,
    new: BloomReplacementWave,
    peer: u32,
    role: PeerRole,
    now: u64,
    due: u64,
) -> bool {
    let had = lookup(old.spec_pending(), peer) is Some;
    let c = old.spec_counters();
    &&& due == match old.spec_last_sent(peer) {
        None => now,
        Some(last) => {
            let later = if last + old.spec_debounce() > u64::MAX { u64::MAX } else { (last + old.spec_debounce()) as u64 };
            if now >= later { now } else { later }
        },
    }
    &&& lookup(new.spec_pending(), peer) matches Some(e) && e.0 == due && e.1 == role
    &&& forall|p: u32| p != peer ==> #[trigger] lookup(new.spec_pending(), p) == lookup(old.spec_pending(), p)
    &&& new.spec_pending().len() == old.spec_pending().len() + if had { 0int } else { 1int }
    &&& new.spec_counters() == (BloomWaveCounters {
        requested: (c.requested + 1) as u64,
        recomputations: (c.recomputations + 1) as u64,
        bitwise_operations: (c.bitwise_operations + DEFAULT_BITS / 8) as u64,
        coalesced: if had { (c.coalesced + 1) as u64 } else { c.coalesced },
        ..c
    })
    &&& forall|p: u32| #[trigger] new.spec_last_sent(p) == old.spec_last_sent(p)
    &&& new.spec_transmissions() == old.spec_transmissions()
    &&& new.spec_debounce() == old.spec_debounce()
}

/// Whether a flush of `due` cannot overflow the counters it bumps.
pub open spec fn spec_flush_fits(c: BloomWaveCounters, due: Seq<PendingReplacement>, rejects: bool) -> bool {
    let n = due.len();
    &&& c.constructed + n <= u64::MAX
    &&& rejects ==> c.rejected + n <= u64::MAX
    &&& !rejects ==> {
        &&& c.sent + n <= u64::MAX
        &&& c.message_bytes + n * FILTER_ANNOUNCE_BYTES <= u64::MAX
        &&& c.fmp_bytes + n * FILTER_ANNOUNCE_FMP_BYTES <= u64::MAX
        &&& forall|role: PeerRole| spec_role_count(c.by_role, role) + #[trigger] spec_role_total(due, role) <= u64::MAX
    }
}

/// What flushing the replacements `due` does to the counters, the transmissions and
/// the last send times.
pub open spec fn spec_flush_outcome(old: BloomReplacementWave, new: BloomReplacementWave, due: Seq<PendingReplacement>, rejects: bool) -> bool {
    let c = old.spec_counters();
    let n = due.len();
    if rejects {
        &&& new.spec_counters() == (BloomWaveCounters {
            constructed: (c.constructed + n) as u64,
            rejected: (c.rejected + n) as u64,
            ..c
        })
        &&& new.spec_transmissions() == old.spec_transmissions()
        &&& forall|p: u32| #[trigger] new.spec_last_sent(p) == old.spec_last_sent(p)
    } else {
        &&& new.spec_counters() == (BloomWaveCounters {
            constructed: (c.constructed + n) as u64,
            sent: (c.sent + n) as u64,
            message_bytes: (c.message_bytes + n * FILTER_ANNOUNCE_BYTES) as u64,
            fmp_bytes: (c.fmp_bytes + n * FILTER_ANNOUNCE_FMP_BYTES) as u64,
            by_role: RoleCounts {
                parent: (c.by_role.parent + spec_role_total(due, PeerRole::Parent)) as u64,
                child: (c.by_role.child + spec_role_total(due, PeerRole::Child)) as u64,
                mesh: (c.by_role.mesh + spec_role_total(due, PeerRole::Mesh)) as u64,
            },
            ..c
        })
        &&& new.spec_transmissions() == old.spec_transmissions() + due.map_values(|e: PendingReplacement| spec_transmission(e))
        &&& forall|p: u32| #[trigger] new.spec_last_sent(p) == match lookup(due, p) {
            Some(v) => Some(v.0),
            None => old.spec_last_sent(p),
        }
    }
}

proof fn lemma_role_total_push(s: Seq<PendingReplacement>, e: PendingReplacement)
    ensures
        forall|role: PeerRole| #[trigger] spec_role_total(s.push(e), role) == spec_role_total(s, role) + if e.1.1 == role { 1int } else { 0int },
{
    assert forall|role: PeerRole| #[trigger] spec_role_total(s.push(e), role) == spec_role_total(s, role) + if e.1.1 == role { 1int } else { 0int } by {
        s.lemma_filter_push(e, bound_for(role));
    }
}

proof fn lemma_role_total_concat(a: Seq<PendingReplacement>, b: Seq<PendingReplacement>)
    ensures
        forall|role: PeerRole| #[trigger] spec_role_total(a + b, role) == spec_role_total(a, role) + spec_role_total(b, role),
{
    assert forall|role: PeerRole| #[trigger] spec_role_total(a + b, role) == spec_role_total(a, role) + spec_role_total(b, role) by {
        Seq::filter_distributes_over_add(a, b, bound_for(role));
    }
}

proof fn lemma_split_len(s: Seq<PendingReplacement>, now: u64)
    ensures
        spec_due_entries(s, now).len() + spec_waiting_entries(s, now).len() == s.len(),
    decreases s.len(),
{
    reveal(Seq::filter);
    if s.len() > 0 {
        lemma_split_len(s.drop_last(), now);
    }
}

/// Due entries of a prefix are a prefix of all due entries.
proof fn lemma_due_prefix(s: Seq<PendingReplacement>, now: u64, j: int)
    requires
        0 <= j <= s.len(),
    ensures
        spec_due_entries(s, now) == s.take(j).filter(due_at(now)) + s.skip(j).filter(due_at(now)),
{
    assert(s =~= s.take(j) + s.skip(j));
    Seq::filter_distributes_over_add(s.take(j), s.skip(j), due_at(now));
}

/// The peer at position `j` is not among the due entries before it.
proof fn lemma_fresh_peer(s: Seq<PendingReplacement>, now: u64, j: int)
    requires
        peers_ascending(s),
        0 <= j < s.len(),
    ensures
        forall|k: int| 0 <= k < s.take(j).filter(due_at(now)).len()
            ==> (#[trigger] s.take(j).filter(due_at(now))[k]).0 != s[j].0,
        unique_keys(s.take(j).filter(due_at(now))),
{
    let t = s.take(j);
    assert(peers_ascending(t)) by {
        assert forall|a: int, b: int| 0 <= a < b < t.len() implies (#[trigger] t[a]).0 < (#[trigger] t[b]).0 by {
            assert(t[a] == s[a] && t[b] == s[b]);
        }
    }
    lemma_ascending_filter(t, due_at(now));
    lemma_ascending_unique(t.filter(due_at(now)));
    let f = t.filter(due_at(now));
    assert forall|k: int| 0 <= k < f.len() implies (#[trigger] f[k]).0 != s[j].0 by {
        assert(t.contains(f[k]));
        let m = choose|m: int| 0 <= m < t.len() && t[m] == f[k];
        assert(s[m] == t[m]);
        assert(s[m].0 < s[j].0);
    }
}

/// Deterministic per-peer replacement debounce.
#[derive(Debug, Clone)]
pub struct BloomReplacementWave {
    debounce_ns: u64,
    last_sent: Vec<(u32, u64)>,
    pending: Vec<PendingReplacement>,
    /// Reconciled counters.
    pub counters: BloomWaveCounters,
    /// Stable accepted transmission records.
    pub transmissions: Vec<BloomTransmission>,
}

impl BloomReplacementWave {
    /// Debounce between replacements to one peer.
    pub closed spec fn spec_debounce(&self) -> u64 {
        self.debounce_ns
    }

    /// When a replacement last left for a peer.
    pub closed spec fn spec_last_sent(&self, peer: u32) -> Option<u64> {
        lookup(self.last_sent@, peer)
    }

    /// Pending replacements in ascending peer order.
    pub closed spec fn spec_pending(&self) -> Seq<PendingReplacement> {
        self.pending@
    }

    /// Reconciled counters.
    pub closed spec fn spec_counters(&self) -> BloomWaveCounters {
        self.counters
    }

    /// Accepted transmissions in send order.
    pub closed spec fn spec_transmissions(&self) -> Seq<BloomTransmission> {
        self.transmissions@
    }

    /// Pending peers ascend and each peer has one last send time.
    pub closed spec fn wf(&self) -> bool {
        &&& peers_ascending(self.pending@)
        &&& unique_keys(self.last_sent@)
    }

    /// Create the replacement scheduler with a per-peer debounce.
    pub fn new(debounce_ns: u64) -> (r: Self)
        ensures
            r.wf(),
            r.spec_debounce() == debounce_ns,
            forall|peer: u32| #[trigger] r.spec_last_sent(peer) is None,
            r.spec_pending() == Seq::<PendingReplacement>::empty(),
            r.spec_counters() == spec_zero_wave_counters(),
            r.spec_transmissions() == Seq::<BloomTransmission>::empty(),
    {
        BloomReplacementWave {
            debounce_ns,
            last_sent: Vec::new(),
            pending: Vec::new(),
            counters: BloomWaveCounters::default(),
            transmissions: Vec::new(),
        }
    }

    /// Position of a peer's last send time.
    fn find_last_sent(&self, peer: u32) -> (r: Option<usize>)
        requires
            self.wf(),
        ensures
            r is None ==> self.spec_last_sent(peer) is None,
            r matches Some(i) ==> i < self.last_sent@.len() && self.last_sent@[i as int].0 == peer
                && self.spec_last_sent(peer) == Some(self.last_sent@[i as int].1),
    {
        let mut i: usize = 0;
        while i < self.last_sent.len()
            invariant
                self.wf(),
                i <= self.last_sent@.len(),
                forall|k: int| 0 <= k < i ==> (#[trigger] self.last_sent@[k]).0 != peer,
            decreases self.last_sent@.len() - i,
        {
            if self.last_sent[i].0 == peer {
                proof {
                    lemma_lookup_at(self.last_sent@, i as int);
                }
                return Some(i);
            }
            i = i + 1;
        }
        None
    }

    /// Record a send to a peer.
    fn set_last_sent(&mut self, peer: u32, at_ns: u64)
        requires
            old(self).wf(),
        ensures
            final(self).wf(),
            final(self).spec_last_sent(peer) == Some(at_ns),
            forall|p: u32| p != peer ==> #[trigger] final(self).spec_last_sent(p) == old(self).spec_last_sent(p),
            final(self).pending == old(self).pending,
            final(self).counters == old(self).counters,
            final(self).transmissions == old(self).transmissions,
            final(self).debounce_ns == old(self).debounce_ns,
    {
        let ghost before = self.last_sent@;
        match self.find_last_sent(peer) {
            Some(i) => {
                self.last_sent.set(i, (peer, at_ns));
                proof {
                    assert(self.last_sent@ == before.update(i as int, (before[i as int].0, at_ns)));
                    assert forall|p: u32| #[trigger] lookup(self.last_sent@, p) == if p == peer { Some(at_ns) } else { lookup(before, p) } by {
                        lemma_lookup_update(before, i as int, at_ns, p);
                    }
                }
            },
            None => {
                self.last_sent.push((peer, at_ns));
                proof {
                    assert forall|k: int| 0 <= k < before.len() implies (#[trigger] before[k]).0 != peer by {
                        if before[k].0 == peer {
                            lemma_lookup_at(before, k);
                        }
                    }
                    assert forall|p: u32| #[trigger] lookup(self.last_sent@, p) == if p == peer { Some(at_ns) } else { lookup(before, p) } by {
                        lemma_lookup_push(before, (peer, at_ns), p);
                    }
                    lemma_lookup_push(before, (peer, at_ns), peer);
                }
            },
        }
    }

    /// Request a role-sensitive replacement. Returns its due time.
    pub fn request(&mut self, peer: u32, role: PeerRole, now_ns: u64) -> (r: u64)
        requires
            old(self).wf(),
            old(self).spec_counters().requested < u64::MAX,
            old(self).spec_counters().recomputations < u64::MAX,
            old(self).spec_counters().bitwise_operations + DEFAULT_BITS / 8 <= u64::MAX,
            lookup(old(self).spec_pending(), peer) is Some ==> old(self).spec_counters().coalesced < u64::MAX,
        ensures
            final(self).wf(),
            spec_request_outcome(*old(self), *final(self), peer, role, now_ns, r),
            spec_wave_balanced(old(self).spec_counters(), old(self).spec_pending().len())
                ==> spec_wave_balanced(final(self).spec_counters(), final(self).spec_pending().len()),
            lookup(final(self).spec_pending(), peer) matches Some(e) && e.2@ == spec_peer_label(peer),
            wave_call_outcome(*old(self), *final(self), WaveCall::Request { peer, role, now_ns, due_ns: r }),
    {
        let label = peer_label(peer);
        self.request_causal(peer, role, now_ns, label)
    }

    /// Request a replacement attributed to an initiating semantic action. Returns its
    /// due time: now, or one debounce after the peer's last send if that is later.
    pub fn request_causal(&mut self, peer: u32, role: PeerRole, now_ns: u64, causal_id: String) -> (r: u64)
        requires
            old(self).wf(),
            old(self).spec_counters().requested < u64::MAX,
            old(self).spec_counters().recomputations < u64::MAX,
            old(self).spec_counters().bitwise_operations + DEFAULT_BITS / 8 <= u64::MAX,
            lookup(old(self).spec_pending(), peer) is Some ==> old(self).spec_counters().coalesced < u64::MAX,
        ensures
            final(self).wf(),
            spec_request_outcome(*old(self), *final(self), peer, role, now_ns, r),
            spec_wave_balanced(old(self).spec_counters(), old(self).spec_pending().len())
                ==> spec_wave_balanced(final(self).spec_counters(), final(self).spec_pending().len()),
            lookup(final(self).spec_pending(), peer) == Some((r, role, causal_id)),
            wave_call_outcome(*old(self), *final(self), WaveCall::Request { peer, role, now_ns, due_ns: r }),
    {
        proof {
            reveal(wave_call_outcome);
            lemma_ascending_unique(self.pending@);
        }
        let had = self.pending_position(peer);
        self.counters.requested = self.counters.requested + 1;
        self.counters.recomputations = self.counters.recomputations + 1;
        self.counters.bitwise_operations = self.counters.bitwise_operations + (DEFAULT_BITS / 8) as u64;
        let due = match self.find_last_sent(peer) {
            None => now_ns,
            Some(i) => {
                let later = self.last_sent[i].1.saturating_add(self.debounce_ns);
                if now_ns >= later { now_ns } else { later }
            },
        };
        let ghost before = self.pending@;
        let entry: PendingReplacement = (peer, (due, role, causal_id));
        match had {
            (p, true) => {
                self.pending.set(p, entry);
                self.counters.coalesced = self.counters.coalesced + 1;
                proof {
                    assert(self.pending@ == before.update(p as int, (before[p as int].0, entry.1)));
                    assert forall|x: u32| #[trigger] lookup(self.pending@, x) == if x == peer { Some(entry.1) } else { lookup(before, x) } by {
                        lemma_lookup_update(before, p as int, entry.1, x);
                    }
                    assert forall|a: int, b: int| 0 <= a < b < self.pending@.len() implies (#[trigger] self.pending@[a]).0 < (#[trigger] self.pending@[b]).0 by {
                        assert(before[a].0 < before[b].0);
                    }
                }
            },
            (p, false) => {
                self.pending.insert(p, entry);
                proof {
                    let after = self.pending@;
                    assert forall|a: int, b: int| 0 <= a < b < after.len() implies (#[trigger] after[a]).0 < (#[trigger] after[b]).0 by {
                        if b < p {
                            assert(before[a].0 < before[b].0);
                        } else if b == p {
                            assert(before[a].0 < peer);
                        } else if a == p {
                            assert(before[b - 1].0 > peer);
                        } else if a < p {
                            assert(before[a].0 < before[b - 1].0);
                        } else {
                            assert(before[a - 1].0 < before[b - 1].0);
                        }
                    }
                    lemma_ascending_unique(after);
                    assert(after[p as int] == entry);
                    lemma_lookup_at(after, p as int);
                    assert forall|x: u32| x != peer implies #[trigger] lookup(after, x) == lookup(before, x) by {
                        if exists|j: int| 0 <= j < before.len() && (#[trigger] before[j]).0 == x {
                            let j = choose|j: int| 0 <= j < before.len() && (#[trigger] before[j]).0 == x;
                            lemma_lookup_at(before, j);
                            if j < p {
                                assert(after[j] == before[j]);
                                lemma_lookup_at(after, j);
                            } else {
                                assert(after[j + 1] == before[j]);
                                lemma_lookup_at(after, j + 1);
                            }
                        } else if exists|j: int| 0 <= j < after.len() && (#[trigger] after[j]).0 == x {
                            let j = choose|j: int| 0 <= j < after.len() && (#[trigger] after[j]).0 == x;
                            if j < p {
                                assert(before[j].0 == x);
                            } else if j > p {
                                assert(before[j - 1].0 == x);
                            }
                        }
                    }
                }
            },
        }
        due
    }

    /// Where a peer's pending replacement is or would go, and whether it is there.
    fn pending_position(&self, peer: u32) -> (r: (usize, bool))
        requires
            self.wf(),
        ensures
            r.0 <= self.pending@.len(),
            forall|k: int| 0 <= k < r.0 ==> (#[trigger] self.pending@[k]).0 < peer,
            r.1 ==> r.0 < self.pending@.len() && self.pending@[r.0 as int].0 == peer,
            !r.1 ==> r.0 == self.pending@.len() || self.pending@[r.0 as int].0 > peer,
            r.1 == (lookup(self.pending@, peer) is Some),
    {
        proof {
            lemma_ascending_unique(self.pending@);
        }
        let mut p: usize = 0;
        while p < self.pending.len() && self.pending[p].0 < peer
            invariant
                self.wf(),
                p <= self.pending@.len(),
                forall|k: int| 0 <= k < p ==> (#[trigger] self.pending@[k]).0 < peer,
            decreases self.pending@.len() - p,
        {
            p = p + 1;
        }
        let found = p < self.pending.len() && self.pending[p].0 == peer;
        proof {
            if found {
                lemma_lookup_at(self.pending@, p as int);
            } else {
                assert(!exists|j: int| 0 <= j < self.pending@.len() && (#[trigger] self.pending@[j]).0 == peer) by {
                    if exists|j: int| 0 <= j < self.pending@.len() && (#[trigger] self.pending@[j]).0 == peer {
                        let j = choose|j: int| 0 <= j < self.pending@.len() && (#[trigger] self.pending@[j]).0 == peer;
                        if j > p {
                            assert(self.pending@[p as int].0 < self.pending@[j].0);
                        }
                    }
                }
            }
        }
        (p, found)
    }

    /// Execute all replacements due at or before `now_ns`, in peer order. When the
    /// false-positive rate is over its cap or a FilterAnnounce exceeds the MTU, each is
    /// constructed and rejected; otherwise each is sent and recorded.
    pub fn flush(&mut self, now_ns: u64, fpr_exceeded: bool, mtu: u64)
        requires
            old(self).wf(),
            spec_flush_fits(old(self).spec_counters(), spec_due_entries(old(self).spec_pending(), now_ns), spec_flush_rejects(fpr_exceeded, mtu)),
        ensures
            final(self).wf(),
            final(self).spec_debounce() == old(self).spec_debounce(),
            final(self).spec_pending() == spec_waiting_entries(old(self).spec_pending(), now_ns),
            spec_flush_outcome(*old(self), *final(self), spec_due_entries(old(self).spec_pending(), now_ns), spec_flush_rejects(fpr_exceeded, mtu)),
            spec_wave_balanced(old(self).spec_counters(), old(self).spec_pending().len())
                ==> spec_wave_balanced(final(self).spec_counters(), final(self).spec_pending().len()),
            wave_call_outcome(*old(self), *final(self), WaveCall::Flush { now_ns, fpr_exceeded, mtu }),
    {
        proof {
            reveal(wave_call_outcome);
        }
        let rejects = fpr_exceeded || FILTER_ANNOUNCE_FMP_BYTES > mtu;
        let ghost orig = self.pending@;
        let ghost c0 = self.counters;
        let ghost t0 = self.transmissions@;
        let ghost w0 = *self;
        let ghost due_p = due_at(now_ns);
        let ghost keep_p = waiting_at(now_ns);
        let ghost mut j: int = 0;
        let mut i: usize = 0;
        proof {
            lemma_ascending_filter(orig, due_p);
            lemma_ascending_filter(orig, keep_p);
            lemma_ascending_unique(orig);
        }
        while i < self.pending.len()
            invariant
                self.wf(),
                rejects == spec_flush_rejects(fpr_exceeded, mtu),
                spec_flush_fits(c0, spec_due_entries(orig, now_ns), rejects),
                due_p == due_at(now_ns),
                keep_p == waiting_at(now_ns),
                peers_ascending(orig),
                0 <= j <= orig.len(),
                self.pending@ == orig.take(j).filter(keep_p) + orig.skip(j),
                i == orig.take(j).filter(keep_p).len(),
                self.debounce_ns == w0.debounce_ns,
                c0 == w0.counters,
                t0 == w0.transmissions@,
                spec_flush_outcome(w0, *self, orig.take(j).filter(due_p), rejects),
            decreases orig.len() - j,
        {
            let ghost kept = orig.take(j).filter(keep_p);
            let ghost done = orig.take(j).filter(due_p);
            let ghost pre = *self;
            proof {
                assert(orig.take(j + 1) =~= orig.take(j).push(orig[j]));
                orig.take(j).lemma_filter_push(orig[j], keep_p);
                orig.take(j).lemma_filter_push(orig[j], due_p);
                assert(self.pending@[i as int] == orig[j]);
            }
            if self.pending[i].1.0 <= now_ns {
                let ghost e = orig[j];
                let ghost done2 = done.push(e);
                proof {
                    lemma_role_total_push(done, e);
                    lemma_fresh_peer(orig, now_ns, j);
                    lemma_due_prefix(orig, now_ns, j + 1);
                    lemma_role_total_concat(done2, orig.skip(j + 1).filter(due_p));
                    assert(spec_due_entries(orig, now_ns).len() >= done2.len());
                    assert forall|role: PeerRole| #[trigger] spec_role_total(done2, role) <= spec_role_total(spec_due_entries(orig, now_ns), role) by {
                    }
                    assert forall|p: u32| #[trigger] lookup(done2, p) == if p == e.0 { Some(e.1) } else { lookup(done, p) } by {
                        lemma_lookup_push(done, e, p);
                    }
                }
                let (peer, (at, role, causal_id)) = self.pending.remove(i);
                assert(peer == e.0 && at == e.1.0 && role == e.1.1 && causal_id == e.1.2);
                assert(spec_role_count(c0.by_role, PeerRole::Parent) + spec_role_total(spec_due_entries(orig, now_ns), PeerRole::Parent) <= u64::MAX || rejects);
                assert(spec_role_count(c0.by_role, PeerRole::Child) + spec_role_total(spec_due_entries(orig, now_ns), PeerRole::Child) <= u64::MAX || rejects);
                assert(spec_role_count(c0.by_role, PeerRole::Mesh) + spec_role_total(spec_due_entries(orig, now_ns), PeerRole::Mesh) <= u64::MAX || rejects);
                self.counters.constructed = self.counters.constructed + 1;
                if rejects {
                    self.counters.rejected = self.counters.rejected + 1;
                    proof {
                        assert forall|p: u32| #[trigger] self.spec_last_sent(p) == w0.spec_last_sent(p) by {
                            assert(pre.spec_last_sent(p) == w0.spec_last_sent(p));
                        }
                    }
                } else {
                    self.counters.sent = self.counters.sent + 1;
                    self.counters.message_bytes = self.counters.message_bytes + FILTER_ANNOUNCE_BYTES;
                    self.counters.fmp_bytes = self.counters.fmp_bytes + FILTER_ANNOUNCE_FMP_BYTES;
                    match role {
                        PeerRole::Parent => {
                            self.counters.by_role.parent = self.counters.by_role.parent + 1;
                        },
                        PeerRole::Child => {
                            self.counters.by_role.child = self.counters.by_role.child + 1;
                        },
                        PeerRole::Mesh => {
                            self.counters.by_role.mesh = self.counters.by_role.mesh + 1;
                        },
                    }
                    let ghost mid = *self;
                    self.set_last_sent(peer, at);
                    let ghost after_set = *self;
                    self.transmissions.push(BloomTransmission {
                        causal_id,
                        peer,
                        role,
                        at_ns: at,
                        frame_bytes: FILTER_ANNOUNCE_FMP_BYTES,
                    });
                    proof {
                        assert(done2.map_values(|x: PendingReplacement| spec_transmission(x))
                            =~= done.map_values(|x: PendingReplacement| spec_transmission(x)).push(spec_transmission(e)));
                        assert forall|p: u32| #[trigger] self.spec_last_sent(p) == match lookup(done2, p) {
                            Some(v) => Some(v.0),
                            None => w0.spec_last_sent(p),
                        } by {
                            assert(pre.spec_last_sent(p) == match lookup(done, p) {
                                Some(v) => Some(v.0),
                                None => w0.spec_last_sent(p),
                            });
                            assert(mid.last_sent == pre.last_sent);
                            assert(mid.spec_last_sent(p) == pre.spec_last_sent(p));
                            assert(lookup(done2, p) == if p == e.0 { Some(e.1) } else { lookup(done, p) });
                            assert(self.last_sent == after_set.last_sent);
                            assert(self.spec_last_sent(p) == after_set.spec_last_sent(p));
                            if p == peer {
                                assert(after_set.spec_last_sent(p) == Some(at));
                                assert(e.0 == peer);
                                assert(e.1.0 == at);
                            } else {
                                assert(after_set.spec_last_sent(p) == mid.spec_last_sent(p));
                            }
                        }
                    }
                }
                proof {
                    assert(self.pending@ =~= kept + orig.skip(j + 1));
                    j = j + 1;
                }
            } else {
                i = i + 1;
                proof {
                    assert(self.pending@ =~= kept.push(orig[j]) + orig.skip(j + 1));
                    j = j + 1;
                }
            }
        }
        proof {
            assert(orig.take(j) =~= orig);
            assert(self.pending@ =~= orig.filter(keep_p));
            lemma_split_len(orig, now_ns);
        }
    }

    /// Whether flushing at `now_ns` keeps every counter within 64 bits.
    pub fn flush_fits(&self, now_ns: u64, fpr_exceeded: bool, mtu: u64) -> (r: bool)
        requires
            self.wf(),
        ensures
            r == spec_flush_fits(self.spec_counters(), spec_due_entries(self.spec_pending(), now_ns), spec_flush_rejects(fpr_exceeded, mtu)),
    {
        let len = self.pending.len();
        let ghost all = self.pending@;
        let mut due: u64 = 0;
        let mut parents: u64 = 0;
        let mut children: u64 = 0;
        let mut meshes: u64 = 0;
        let mut i: usize = 0;
        proof {
            assert(all.take(0) =~= Seq::<PendingReplacement>::empty());
            reveal(Seq::filter);
        }
        while i < len
            invariant
                len == all.len(),
                all == self.pending@,
                i <= len,
                due == spec_due_entries(all.take(i as int), now_ns).len(),
                parents == spec_role_total(spec_due_entries(all.take(i as int), now_ns), PeerRole::Parent),
                children == spec_role_total(spec_due_entries(all.take(i as int), now_ns), PeerRole::Child),
                meshes == spec_role_total(spec_due_entries(all.take(i as int), now_ns), PeerRole::Mesh),
                due <= i,
                parents <= due,
                children <= due,
                meshes <= due,
            decreases len - i,
        {
            let at = self.pending[i].1.0;
            let role = self.pending[i].1.1;
            let ghost prev = spec_due_entries(all.take(i as int), now_ns);
            let ghost x = all[i as int];
            proof {
                reveal(Seq::filter);
                assert(all.take(i + 1).drop_last() =~= all.take(i as int));
                assert(all.take(i + 1).last() == x);
                if spec_due(x, now_ns) {
                    assert(spec_due_entries(all.take(i + 1), now_ns) == prev.push(x));
                    assert(prev.push(x).drop_last() =~= prev);
                } else {
                    assert(spec_due_entries(all.take(i + 1), now_ns) == prev);
                }
            }
            if at <= now_ns {
                due = due + 1;
                match role {
                    PeerRole::Parent => {
                        parents = parents + 1;
                    },
                    PeerRole::Child => {
                        children = children + 1;
                    },
                    PeerRole::Mesh => {
                        meshes = meshes + 1;
                    },
                }
            }
            i = i + 1;
        }
        proof {
            assert(all.take(len as int) =~= all);
        }
        let c = &self.counters;
        let rejects = fpr_exceeded || FILTER_ANNOUNCE_FMP_BYTES > mtu;
        let constructed_fits = c.constructed.checked_add(due).is_some();
        if rejects {
            constructed_fits && c.rejected.checked_add(due).is_some()
        } else {
            proof {
                assert(due * FILTER_ANNOUNCE_FMP_BYTES <= FILTER_ANNOUNCE_FMP_BYTES * u64::MAX) by (nonlinear_arith)
                    requires
                        due <= u64::MAX,
                        FILTER_ANNOUNCE_FMP_BYTES == 1071,
                ;
                assert(due * FILTER_ANNOUNCE_BYTES <= FILTER_ANNOUNCE_BYTES * u64::MAX) by (nonlinear_arith)
                    requires
                        due <= u64::MAX,
                        FILTER_ANNOUNCE_BYTES == 1035,
                ;
            }
            let message_total = (c.message_bytes as u128) + (due as u128) * (FILTER_ANNOUNCE_BYTES as u128);
            let fmp_total = (c.fmp_bytes as u128) + (due as u128) * (FILTER_ANNOUNCE_FMP_BYTES as u128);
            let roles_fit = c.by_role.parent.checked_add(parents).is_some()
                && c.by_role.child.checked_add(children).is_some()
                && c.by_role.mesh.checked_add(meshes).is_some();
            let r = constructed_fits && c.sent.checked_add(due).is_some() && message_total <= u64::MAX as u128
                && fmp_total <= u64::MAX as u128 && roles_fit;
            proof {
                let d = spec_due_entries(all, now_ns);
                if roles_fit {
                    assert forall|role: PeerRole| spec_role_count(c.by_role, role) + #[trigger] spec_role_total(d, role) <= u64::MAX by {
                        match role {
                            PeerRole::Parent => {},
                            PeerRole::Child => {},
                            PeerRole::Mesh => {},
                        }
                    }
                } else {
                    if c.by_role.parent.checked_add(parents).is_none() {
                        assert(spec_role_count(c.by_role, PeerRole::Parent) + spec_role_total(d, PeerRole::Parent) > u64::MAX);
                    } else if c.by_role.child.checked_add(children).is_none() {
                        assert(spec_role_count(c.by_role, PeerRole::Child) + spec_role_total(d, PeerRole::Child) > u64::MAX);
                    } else {
                        assert(spec_role_count(c.by_role, PeerRole::Mesh) + spec_role_total(d, PeerRole::Mesh) > u64::MAX);
                    }
                }
            }
            r
        }
    }

    /// Pending replacement count.
    pub fn pending(&self) -> (r: usize)
        ensures
            r == self.spec_pending().len(),
    {
        self.pending.len()
    }

    /// Check exact request lifecycle reconciliation.
    pub fn reconciles(&self) -> (r: bool)
        requires
            self.spec_counters().coalesced + self.spec_counters().constructed + self.spec_pending().len() <= u64::MAX,
            self.spec_counters().sent + self.spec_counters().rejected <= u64::MAX,
            self.spec_counters().sent * FILTER_ANNOUNCE_FMP_BYTES <= u64::MAX,
        ensures
            r == spec_wave_balanced(self.spec_counters(), self.spec_pending().len()),
    {
        let c = self.counters;
        let pending = self.pending.len() as u64;
        c.requested == c.coalesced + c.constructed + pending
            && c.constructed == c.sent + c.rejected
            && c.message_bytes == c.sent * FILTER_ANNOUNCE_BYTES
            && c.fmp_bytes == c.sent * FILTER_ANNOUNCE_FMP_BYTES
    }
}

/// No false negatives: once a value is inserted into an exact or sparse filter,
/// every bit it probes is set, so `contains_seeded` answers `Some(true)`.
pub proof fn law_inserted_value_is_present(before: BloomModel, after: BloomModel, value: Seq<u8>)
    requires
        before.wf(),
        !(before is Occupancy),
        forall|x: usize| #[trigger] after.spec_has_bit(x as int) <==> (before.spec_has_bit(x as int)
            || spec_indexes(value, before.spec_num_bits() as usize, before.spec_hash_count()).contains(x)),
    ensures
        spec_all_set(after, spec_indexes(value, before.spec_num_bits() as usize, before.spec_hash_count())),
{
    let probes = spec_indexes(value, before.spec_num_bits() as usize, before.spec_hash_count());
    assert forall|k: int| 0 <= k < probes.len() implies after.spec_has_bit(#[trigger] probes[k] as int) by {
        assert(probes.contains(probes[k]));
        assert(after.spec_has_bit(probes[k] as int) <==> (before.spec_has_bit(probes[k] as int) || probes.contains(probes[k])));
    }
}

/// Exact and sparse filters holding the same set bits agree on occupancy and on every
/// membership answer.
pub proof fn law_same_bits_same_answers(a: BloomModel, b: BloomModel, probes: Seq<usize>)
    requires
        a.wf(),
        b.wf(),
        !(a is Occupancy),
        !(b is Occupancy),
        a.spec_num_bits() == b.spec_num_bits(),
        forall|x: usize| #[trigger] a.spec_has_bit(x as int) <==> b.spec_has_bit(x as int),
    ensures
        a.spec_occupied() == b.spec_occupied(),
        spec_all_set(a, probes) == spec_all_set(b, probes),
{
    assert forall|i: int| 0 <= i < a.spec_num_bits() implies #[trigger] a.spec_has_bit(i) == b.spec_has_bit(i) by {
        assert(a.spec_has_bit((i as usize) as int) == b.spec_has_bit((i as usize) as int));
    }
    lemma_count_ext(a.spec_num_bits(), |i: int| a.spec_has_bit(i), |i: int| b.spec_has_bit(i));
    assert forall|k: int| 0 <= k < probes.len() implies a.spec_has_bit(#[trigger] probes[k] as int) == b.spec_has_bit(probes[k] as int) by {
    }
}

/// Bytes hashed for a seeded occupancy draw: seed and ordinal little-endian, then the value.
pub open spec fn draw_preimage(seed: u64, ordinal: u64, value: Seq<u8>) -> Seq<u8> {
    le_bytes(seed as nat, 8) + le_bytes(ordinal as nat, 8) + value
}

/// The seeded draw for an occupancy query: the first little-endian word of the digest.
pub open spec fn spec_seeded_draw(seed: u64, ordinal: u64, value: Seq<u8>) -> u64 {
    le_word(sha256(draw_preimage(seed, ordinal, value)), 0) as u64
}

/// The seeded 64-bit draw an occupancy filter compares, as a fraction of `u64::MAX`,
/// against its false-positive rate.
pub fn seeded_draw(seed: u64, ordinal: u64, value: &[u8]) -> (r: u64)
    ensures
        r == spec_seeded_draw(seed, ordinal, value@),
{
    let mut preimage: Vec<u8> = Vec::new();
    push_le(&mut preimage, seed, 8);
    push_le(&mut preimage, ordinal, 8);
    let mut i: usize = 0;
    let ghost head = preimage@;
    while i < value.len()
        invariant
            i <= value@.len(),
            preimage@ == head + value@.take(i as int),
        decreases value@.len() - i,
    {
        preimage.push(value[i]);
        i = i + 1;
        assert(preimage@ =~= head + value@.take(i as int));
    }
    assert(value@.take(i as int) =~= value@);
    let digest = sha256_digest(preimage.as_slice());
    digest_word(&digest, 0)
}

/// One call on a replacement wave, with what it was given and, for a request, the
/// time it answered.
pub enum WaveCall {
    /// `request` or `request_causal` for `peer`, answered with `due_ns`.
    Request { peer: u32, role: PeerRole, now_ns: u64, due_ns: u64 },
    /// `flush` at `now_ns`.
    Flush { now_ns: u64, fpr_exceeded: bool, mtu: u64 },
}

/// What one call does to a wave, under the conditions the call requires.
#[verifier::opaque]
pub open spec fn wave_call_outcome(old: BloomReplacementWave, new: BloomReplacementWave, call: WaveCall) -> bool {
    match call {
        WaveCall::Request { peer, role, now_ns, due_ns } => {
            &&& old.spec_counters().requested < u64::MAX
            &&& lookup(old.spec_pending(), peer) is Some ==> old.spec_counters().coalesced < u64::MAX
            &&& spec_request_outcome(old, new, peer, role, now_ns, due_ns)
        },
        WaveCall::Flush { now_ns, fpr_exceeded, mtu } => {
            let due = spec_due_entries(old.spec_pending(), now_ns);
            let rejects = spec_flush_rejects(fpr_exceeded, mtu);
            &&& spec_flush_fits(old.spec_counters(), due, rejects)
            &&& new.spec_pending() == spec_waiting_entries(old.spec_pending(), now_ns)
            &&& spec_flush_outcome(old, new, due, rejects)
        },
    }
}

proof fn lemma_wave_call_balanced(old: BloomReplacementWave, new: BloomReplacementWave, call: WaveCall)
    requires
        spec_wave_balanced(old.spec_counters(), old.spec_pending().len()),
        wave_call_outcome(old, new, call),
    ensures
        spec_wave_balanced(new.spec_counters(), new.spec_pending().len()),
{
    reveal(wave_call_outcome);
    if let WaveCall::Flush { now_ns, fpr_exceeded, mtu } = call {
        lemma_split_len(old.spec_pending(), now_ns);
    }
}

/// A new wave balances: nothing requested, pending, constructed or sent.
pub proof fn law_new_wave_balanced(w: BloomReplacementWave)
    requires
        w.spec_counters() == spec_zero_wave_counters(),
        w.spec_pending() == Seq::<PendingReplacement>::empty(),
    ensures
        spec_wave_balanced(w.spec_counters(), w.spec_pending().len()),
{
}

/// The request lifecycle stays balanced through any sequence of requests, causal
/// requests and flushes: `states[i]` became `states[i + 1]` by `calls[i]`.
pub proof fn law_wave_stays_balanced(states: Seq<BloomReplacementWave>, calls: Seq<WaveCall>)
    requires
        states.len() == calls.len() + 1,
        spec_wave_balanced(states[0].spec_counters(), states[0].spec_pending().len()),
        forall|i: int| 0 <= i < calls.len() ==> wave_call_outcome(#[trigger] states[i], states[i + 1], calls[i]),
    ensures
        forall|i: int| 0 <= i < states.len() ==> spec_wave_balanced((#[trigger] states[i]).spec_counters(), states[i].spec_pending().len()),
    decreases calls.len(),
{
    if calls.len() > 0 {
        let n = calls.len() - 1;
        let s1 = states.drop_last();
        let c1 = calls.drop_last();
        assert forall|i: int| 0 <= i < c1.len() implies wave_call_outcome(#[trigger] s1[i], s1[i + 1], c1[i]) by {
            assert(wave_call_outcome(states[i], states[i + 1], calls[i]));
        }
        law_wave_stays_balanced(s1, c1);
        assert(wave_call_outcome(states[n], states[n + 1], calls[n]));
        assert(spec_wave_balanced(s1[n].spec_counters(), s1[n].spec_pending().len()));
        lemma_wave_call_balanced(states[n], states[n + 1], calls[n]);
        assert forall|i: int| 0 <= i < states.len() implies spec_wave_balanced((#[trigger] states[i]).spec_counters(), states[i].spec_pending().len()) by {
            if i < s1.len() {
                assert(s1[i] == states[i]);
            }
        }
    }
}

/// What inserting `value` into a bit-holding filter does: the shape stays, and the
/// bits become the old bits plus the value's probe indexes.
pub open spec fn bit_insert_outcome(old: BloomModel, new: BloomModel, value: Seq<u8>) -> bool {
    &&& !(old is Occupancy)
    &&& new.same_shape(&old)
    &&& forall|x: usize| #[trigger] new.spec_has_bit(x as int) <==> (old.spec_has_bit(x as int)
        || spec_indexes(value, old.spec_num_bits() as usize, old.spec_hash_count()).contains(x))
}

/// Exact and sparse filters agree: two bit-holding filters of the same size and hash
/// count that start with the same bits and receive the same values keep the same
/// bits, so they report the same occupancy and answer every membership probe alike.
pub proof fn law_bit_forms_agree(a: Seq<BloomModel>, b: Seq<BloomModel>, values: Seq<Seq<u8>>)
    requires
        a.len() == values.len() + 1,
        b.len() == values.len() + 1,
        a[0].spec_num_bits() == b[0].spec_num_bits(),
        a[0].spec_hash_count() == b[0].spec_hash_count(),
        forall|x: usize| #[trigger] a[0].spec_has_bit(x as int) <==> b[0].spec_has_bit(x as int),
        forall|i: int| 0 <= i < values.len() ==> bit_insert_outcome(#[trigger] a[i], a[i + 1], values[i]),
        forall|i: int| 0 <= i < values.len() ==> bit_insert_outcome(#[trigger] b[i], b[i + 1], values[i]),
    ensures
        a.last().spec_num_bits() == b.last().spec_num_bits(),
        a.last().spec_hash_count() == b.last().spec_hash_count(),
        forall|x: usize| #[trigger] a.last().spec_has_bit(x as int) <==> b.last().spec_has_bit(x as int),
    decreases values.len(),
{
    if values.len() > 0 {
        let n = values.len() - 1;
        let a1 = a.drop_last();
        let b1 = b.drop_last();
        let v1 = values.drop_last();
        assert forall|i: int| 0 <= i < v1.len() implies bit_insert_outcome(#[trigger] a1[i], a1[i + 1], v1[i]) by {
            assert(bit_insert_outcome(a[i], a[i + 1], values[i]));
        }
        assert forall|i: int| 0 <= i < v1.len() implies bit_insert_outcome(#[trigger] b1[i], b1[i + 1], v1[i]) by {
            assert(bit_insert_outcome(b[i], b[i + 1], values[i]));
        }
        law_bit_forms_agree(a1, b1, v1);
        assert(bit_insert_outcome(a[n], a[n + 1], values[n]));
        assert(bit_insert_outcome(b[n], b[n + 1], values[n]));
        assert(a1.last() == a[n] && b1.last() == b[n]);
    }
}

} // verus!
