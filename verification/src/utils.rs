//! Deterministic helpers shared by the controller and the adapter: the pinned
//! stable hash and the committer-selection sampling.
//!
//! Every participant must reproduce committer elections and the randomness
//! chain bit for bit, so the hash is pinned to FNV-1a (64 bit) rather than a
//! per-process seeded hasher. A `u64` is hashed as its eight little-endian
//! bytes.

use vstd::prelude::*;

verus! {

/// FNV-1a 64-bit offset basis.
pub const FNV_OFFSET_BASIS: u64 = 0xcbf2_9ce4_8422_2325;

/// FNV-1a 64-bit prime.
pub const FNV_PRIME: u64 = 0x0000_0100_0000_01b3;

/// One FNV-1a absorption step.
pub open spec fn spec_fnv1a_step(hash: u64, byte: u8) -> u64 {
    vstd::wrapping::u64_specs::wrapping_mul(hash ^ (byte as u64), FNV_PRIME)
}

/// FNV-1a over a byte string.
pub open spec fn spec_fnv1a(bytes: Seq<u8>) -> u64
    decreases bytes.len(),
{
    if bytes.len() == 0 {
        FNV_OFFSET_BASIS
    } else {
        spec_fnv1a_step(spec_fnv1a(bytes.drop_last()), bytes.last())
    }
}

/// The eight little-endian bytes of a `u64`.
pub open spec fn spec_u64_le_bytes(x: u64) -> Seq<u8> {
    seq![
        (x & 0xff) as u8,
        ((x >> 8) & 0xff) as u8,
        ((x >> 16) & 0xff) as u8,
        ((x >> 24) & 0xff) as u8,
        ((x >> 32) & 0xff) as u8,
        ((x >> 40) & 0xff) as u8,
        ((x >> 48) & 0xff) as u8,
        ((x >> 56) & 0xff) as u8,
    ]
}

/// The stable hash of a `u64`: FNV-1a over its little-endian bytes.
pub open spec fn spec_hash_u64(x: u64) -> u64 {
    spec_fnv1a(spec_u64_le_bytes(x))
}

/// The stable hash of a byte string.
pub open spec fn spec_hash_bytes(bytes: Seq<u8>) -> u64 {
    spec_fnv1a(bytes)
}

/// Stable hash of a byte string (FNV-1a, 64 bit).
pub fn calculate_hash_bytes(bytes: &Vec<u8>) -> (r: u64)
    ensures
        r == spec_hash_bytes(bytes@),
{
    let mut hash: u64 = FNV_OFFSET_BASIS;
    let mut i: usize = 0;
    while i < bytes.len()
        invariant
            i <= bytes.len(),
            hash == spec_fnv1a(bytes@.take(i as int)),
        decreases bytes.len() - i,
    {
        let b = bytes[i];
        hash = (hash ^ (b as u64)).wrapping_mul(FNV_PRIME);
        proof {
            assert(bytes@.take(i + 1 as int).drop_last() =~= bytes@.take(i as int));
            assert(bytes@.take(i + 1 as int).last() == b);
        }
        i = i + 1;
    }
    proof {
        assert(bytes@.take(bytes@.len() as int) =~= bytes@);
    }
    hash
}

/// Stable hash of a `u64`, hashed as its eight little-endian bytes.
pub fn calculate_hash(value: u64) -> (r: u64)
    ensures
        r == spec_hash_u64(value),
{
    let mut bytes: Vec<u8> = Vec::new();
    assert((value & 0xff) <= 0xff) by (bit_vector);
    assert(((value >> 8) & 0xff) <= 0xff) by (bit_vector);
    assert(((value >> 16) & 0xff) <= 0xff) by (bit_vector);
    assert(((value >> 24) & 0xff) <= 0xff) by (bit_vector);
    assert(((value >> 32) & 0xff) <= 0xff) by (bit_vector);
    assert(((value >> 40) & 0xff) <= 0xff) by (bit_vector);
    assert(((value >> 48) & 0xff) <= 0xff) by (bit_vector);
    assert(((value >> 56) & 0xff) <= 0xff) by (bit_vector);
    bytes.push((value & 0xff) as u8);
    bytes.push(((value >> 8) & 0xff) as u8);
    bytes.push(((value >> 16) & 0xff) as u8);
    bytes.push(((value >> 24) & 0xff) as u8);
    bytes.push(((value >> 32) & 0xff) as u8);
    bytes.push(((value >> 40) & 0xff) as u8);
    bytes.push(((value >> 48) & 0xff) as u8);
    bytes.push(((value >> 56) & 0xff) as u8);
    proof {
        assert(bytes@ =~= spec_u64_le_bytes(value));
    }
    calculate_hash_bytes(&bytes)
}

/// The greatest element of a non-empty pool (`0` for an empty one).
pub open spec fn seq_max(pool: Seq<usize>) -> usize
    decreases pool.len(),
{
    if pool.len() == 0 {
        0
    } else {
        let rest = seq_max(pool.drop_last());
        if pool.last() > rest {
            pool.last()
        } else {
            rest
        }
    }
}

pub proof fn lemma_seq_max_properties(pool: Seq<usize>)
    requires
        pool.len() > 0,
    ensures
        pool.contains(seq_max(pool)),
        forall|i: int| 0 <= i < pool.len() ==> pool[i] <= seq_max(pool),
    decreases pool.len(),
{
    if pool.len() == 1 {
        assert(seq_max(pool.drop_last()) == 0);
        assert(pool.last() == pool[0]);
        assert(pool.contains(seq_max(pool))) by {
            assert(pool[0] == seq_max(pool));
        }
        assert forall|i: int| 0 <= i < pool.len() implies pool[i] <= seq_max(pool) by {
            assert(pool[i] == pool[0]);
        }
    } else {
        lemma_seq_max_properties(pool.drop_last());
        let rest = seq_max(pool.drop_last());
        if pool.last() > rest {
            assert(pool.contains(seq_max(pool))) by {
                assert(pool[pool.len() - 1] == seq_max(pool));
            }
        } else {
            let j = choose|j: int|
                0 <= j < pool.drop_last().len() && pool.drop_last()[j] == rest;
            assert(pool.contains(seq_max(pool))) by {
                assert(pool[j] == seq_max(pool));
            }
        }
        assert forall|i: int| 0 <= i < pool.len() implies pool[i] <= seq_max(pool) by {
            if i < pool.len() - 1 {
                assert(pool[i] == pool.drop_last()[i]);
            } else {
                assert(pool[i] == pool.last());
            }
        }
    }
}

/// The index that `index` maps to inside the qualified pool: the first member
/// of the pool met when stepping upwards from `index` modulo `seq_max + 1`.
pub open spec fn spec_map_to_qualified(index: usize, pool: Seq<usize>) -> usize
    decreases (if index <= seq_max(pool) { seq_max(pool) - index } else { seq_max(pool) + 1 as int }),
    when pool.len() > 0
    via spec_map_to_qualified_decreases
{
    if pool.contains(index) {
        index
    } else {
        spec_map_to_qualified((((index as int + 1) % (seq_max(pool) as int + 1)) as usize), pool)
    }
}

#[via_fn]
proof fn spec_map_to_qualified_decreases(index: usize, pool: Seq<usize>) {
    lemma_seq_max_properties(pool);
    let m = seq_max(pool) as int;
    if !pool.contains(index) {
        if index <= seq_max(pool) {
            // index < max here, since max itself is in the pool
            assert(index < seq_max(pool));
            vstd::arithmetic::div_mod::lemma_small_mod((index + 1) as nat, (m + 1) as nat);
        } else {
            vstd::arithmetic::div_mod::lemma_mod_bound(index as int + 1, m + 1);
        }
    }
}

/// Wrap-around search mapping a raw draw into the qualified pool.
pub fn map_to_qualified_indices(index: usize, qualified_indices: &Vec<usize>) -> (r: usize)
    requires
        qualified_indices.len() > 0,
    ensures
        r == spec_map_to_qualified(index, qualified_indices@),
        qualified_indices@.contains(r),
{
    proof {
        lemma_seq_max_properties(qualified_indices@);
    }
    let max = vec_max(qualified_indices);
    let mut idx = index;
    let mut found = vec_contains(qualified_indices, idx);
    while !found
        invariant
            qualified_indices.len() > 0,
            max == seq_max(qualified_indices@),
            found == qualified_indices@.contains(idx),
            spec_map_to_qualified(idx, qualified_indices@)
                == spec_map_to_qualified(index, qualified_indices@),
        decreases (if idx <= max { max - idx } else { max + 1 as int }),
    {
        proof {
            lemma_seq_max_properties(qualified_indices@);
        }
        let ghost prev = idx as int;
        let next_wide: u128 = (idx as u128 + 1) % (max as u128 + 1);
        proof {
            vstd::arithmetic::div_mod::lemma_mod_bound(prev + 1, max as int + 1);
            if prev < max as int {
                vstd::arithmetic::div_mod::lemma_small_mod((prev + 1) as nat, (max + 1) as nat);
            }
            assert(next_wide <= max);
        }
        idx = next_wide as usize;
        found = vec_contains(qualified_indices, idx);
    }
    idx
}

fn vec_contains(v: &Vec<usize>, x: usize) -> (r: bool)
    ensures
        r == v@.contains(x),
{
    let mut i: usize = 0;
    while i < v.len()
        invariant
            i <= v.len(),
            forall|j: int| 0 <= j < i ==> v@[j] != x,
        decreases v.len() - i,
    {
        if v[i] == x {
            return true;
        }
        i = i + 1;
    }
    false
}

fn vec_max(v: &Vec<usize>) -> (r: usize)
    requires
        v.len() > 0,
    ensures
        r == seq_max(v@),
{
    let mut r = v[0];
    let mut i: usize = 1;
    proof {
        assert(seq_max(Seq::<usize>::empty()) == 0);
        assert(v@.take(1).drop_last() =~= Seq::<usize>::empty());
        assert(v@.take(1).last() == v@[0]);
    }
    while i < v.len()
        invariant
            1 <= i <= v.len(),
            r == seq_max(v@.take(i as int)),
        decreases v.len() - i,
    {
        proof {
            assert(v@.take(i + 1 as int).drop_last() =~= v@.take(i as int));
            assert(v@.take(i + 1 as int).last() == v@[i as int]);
        }
        if v[i] > r {
            r = v[i];
        }
        i = i + 1;
    }
    proof {
        assert(v@.take(v@.len() as int) =~= v@);
    }
    r
}

/// The pool with every occurrence of `x` removed, order kept.
pub open spec fn spec_remove_value(pool: Seq<usize>, x: usize) -> Seq<usize>
    decreases pool.len(),
{
    if pool.len() == 0 {
        Seq::empty()
    } else {
        let rest = spec_remove_value(pool.drop_last(), x);
        if pool.last() == x {
            rest
        } else {
            rest.push(pool.last())
        }
    }
}

pub proof fn lemma_remove_value_properties(pool: Seq<usize>, x: usize)
    ensures
        spec_remove_value(pool, x).len() <= pool.len(),
        forall|y: usize| spec_remove_value(pool, x).contains(y) ==> pool.contains(y),
    decreases pool.len(),
{
    if pool.len() > 0 {
        lemma_remove_value_properties(pool.drop_last(), x);
        let out = spec_remove_value(pool, x);
        assert forall|y: usize| out.contains(y) implies pool.contains(y) by {
            let j = choose|j: int| 0 <= j < out.len() && out[j] == y;
            let rest = spec_remove_value(pool.drop_last(), x);
            if pool.last() != x && j == out.len() - 1 {
                assert(pool.contains(y)) by {
                    assert(pool[pool.len() - 1] == y);
                }
            } else {
                assert(0 <= j < rest.len() && rest[j] == y);
                assert(rest.contains(y)) by {
                    assert(rest[j] == y);
                }
                assert(pool.drop_last().contains(y));
                let k = choose|k: int|
                    0 <= k < pool.drop_last().len() && pool.drop_last()[k] == y;
                assert(pool.contains(y)) by {
                    assert(pool[k] == y);
                }
            }
        }
    }
}

fn remove_value(v: &Vec<usize>, x: usize) -> (r: Vec<usize>)
    ensures
        r@ == spec_remove_value(v@, x),
{
    let mut r: Vec<usize> = Vec::new();
    let mut i: usize = 0;
    while i < v.len()
        invariant
            i <= v.len(),
            r@ == spec_remove_value(v@.take(i as int), x),
        decreases v.len() - i,
    {
        proof {
            assert(v@.take(i + 1 as int).drop_last() =~= v@.take(i as int));
            assert(v@.take(i + 1 as int).last() == v@[i as int]);
        }
        if v[i] != x {
            r.push(v[i]);
        }
        i = i + 1;
    }
    proof {
        assert(v@.take(v@.len() as int) =~= v@);
    }
    r
}

/// The deterministic sample drawn without replacement from `pool`, `count`
/// items at most, driven by the FNV-1a hash chain started at `seed`.
pub open spec fn spec_choose_randomly(seed: u64, pool: Seq<usize>, count: nat) -> Seq<usize>
    decreases count,
{
    if count == 0 || pool.len() == 0 {
        Seq::empty()
    } else {
        let h = spec_hash_u64(seed);
        let raw = (h as int % (pool.len() as int + 1)) as usize;
        let picked = spec_map_to_qualified(raw, pool);
        seq![picked] + spec_choose_randomly(h, spec_remove_value(pool, picked), (count - 1) as nat)
    }
}

/// Deterministic sampling without replacement: repeatedly advance the hash
/// chain, map the draw into the remaining pool, and remove the pick. A pure
/// function of its inputs, so every participant reproduces the same sample.
#[verifier::rlimit(60)]
pub fn choose_randomly_from_indices(seed: u64, indices: &Vec<usize>, count: usize) -> (r: Vec<usize>)
    ensures
        r@ == spec_choose_randomly(seed, indices@, count as nat),
{
    let mut pool: Vec<usize> = Vec::new();
    let mut i: usize = 0;
    while i < indices.len()
        invariant
            i <= indices.len(),
            pool@ =~= indices@.take(i as int),
        decreases indices.len() - i,
    {
        pool.push(indices[i]);
        i = i + 1;
    }
    proof {
        assert(indices@.take(indices@.len() as int) =~= indices@);
    }
    let mut res: Vec<usize> = Vec::new();
    let mut hash = seed;
    let mut remaining = count;
    while remaining > 0 && pool.len() > 0
        invariant
            pool.len() <= indices.len(),
            forall|y: usize| pool@.contains(y) ==> indices@.contains(y),
            res@ + spec_choose_randomly(hash, pool@, remaining as nat)
                == spec_choose_randomly(seed, indices@, count as nat),
        decreases remaining,
    {
        hash = calculate_hash(hash);
        let len_plus: u128 = pool.len() as u128 + 1;
        let raw_wide: u128 = hash as u128 % len_plus;
        proof {
            vstd::arithmetic::div_mod::lemma_mod_bound(hash as int, pool@.len() as int + 1);
            assert(raw_wide == hash as int % (pool@.len() as int + 1));
            assert(raw_wide <= pool@.len());
        }
        let raw = raw_wide as usize;
        let picked = map_to_qualified_indices(raw, &pool);
        res.push(picked);
        let new_pool = remove_value(&pool, picked);
        proof {
            lemma_remove_value_properties(pool@, picked);
        }
        pool = new_pool;
        remaining = remaining - 1;
    }
    proof {
        assert(spec_choose_randomly(hash, pool@, remaining as nat) =~= Seq::<usize>::empty());
        assert(res@ =~= res@ + Seq::<usize>::empty());
    }
    res
}

pub proof fn lemma_remove_value_distinct(pool: Seq<usize>, x: usize)
    requires
        pool.no_duplicates(),
    ensures
        spec_remove_value(pool, x).no_duplicates(),
        forall|y: usize|
            spec_remove_value(pool, x).contains(y) == (pool.contains(y) && y != x),
        pool.contains(x) ==> spec_remove_value(pool, x).len() == pool.len() - 1,
        !pool.contains(x) ==> spec_remove_value(pool, x).len() == pool.len(),
    decreases pool.len(),
{
    let out = spec_remove_value(pool, x);
    if pool.len() == 0 {
        assert forall|y: usize| out.contains(y) == (pool.contains(y) && y != x) by {
            if pool.contains(y) {
                let i = choose|i: int| 0 <= i < pool.len() && pool[i] == y;
            }
        }
    } else {
        let prefix = pool.drop_last();
        assert(prefix.no_duplicates());
        lemma_remove_value_distinct(prefix, x);
        let rest = spec_remove_value(prefix, x);
        // relate pool.contains to prefix.contains and the last element
        assert forall|y: usize| pool.contains(y) == (prefix.contains(y) || y == pool.last()) by {
            if pool.contains(y) {
                let i = choose|i: int| 0 <= i < pool.len() && pool[i] == y;
                if i < pool.len() - 1 {
                    assert(prefix[i] == y);
                    assert(prefix.contains(y));
                }
            }
            if prefix.contains(y) {
                let i = choose|i: int| 0 <= i < prefix.len() && prefix[i] == y;
                assert(pool[i] == y);
                assert(pool.contains(y));
            }
            if y == pool.last() {
                assert(pool.contains(y)) by {
                    assert(pool[pool.len() - 1] == y);
                }
            }
        }
        if pool.last() == x {
            assert(out == rest);
            assert(!prefix.contains(pool.last())) by {
                if prefix.contains(pool.last()) {
                    let i = choose|i: int| 0 <= i < prefix.len() && prefix[i] == pool.last();
                    assert(pool[i] == pool[pool.len() - 1]);
                }
            }
        } else {
            assert(out == rest.push(pool.last()));
            assert(!prefix.contains(pool.last())) by {
                if prefix.contains(pool.last()) {
                    let i = choose|i: int| 0 <= i < prefix.len() && prefix[i] == pool.last();
                    assert(pool[i] == pool[pool.len() - 1]);
                }
            }
            assert(!rest.contains(pool.last()));
            assert forall|y: usize| out.contains(y) == (rest.contains(y) || y == pool.last()) by {
                if out.contains(y) {
                    let i = choose|i: int| 0 <= i < out.len() && out[i] == y;
                    if i < out.len() - 1 {
                        assert(rest[i] == y);
                        assert(rest.contains(y));
                    }
                }
                if rest.contains(y) {
                    let i = choose|i: int| 0 <= i < rest.len() && rest[i] == y;
                    assert(out[i] == y);
                    assert(out.contains(y));
                }
                if y == pool.last() {
                    assert(out[out.len() - 1] == y);
                    assert(out.contains(y));
                }
            }
            assert forall|i: int, j: int| 0 <= i < j < out.len() implies out[i] != out[j] by {
                if j < out.len() - 1 {
                    assert(out[i] == rest[i] && out[j] == rest[j]);
                } else {
                    assert(out[i] == rest[i]);
                    assert(rest.contains(rest[i]));
                    assert(out[j] == pool.last());
                }
            }
        }
    }
}

/// The sample is made of distinct elements of the pool, and when the pool
/// has no duplicates its length is exactly `min(count, pool.len())`.
pub proof fn lemma_choose_randomly_properties(seed: u64, pool: Seq<usize>, count: nat)
    requires
        pool.no_duplicates(),
    ensures
        spec_choose_randomly(seed, pool, count).no_duplicates(),
        forall|i: int|
            0 <= i < spec_choose_randomly(seed, pool, count).len() ==> pool.contains(
                #[trigger] spec_choose_randomly(seed, pool, count)[i],
            ),
        spec_choose_randomly(seed, pool, count).len() == (if count <= pool.len() {
            count as int
        } else {
            pool.len() as int
        }),
    decreases count,
{
    let r = spec_choose_randomly(seed, pool, count);
    if count == 0 || pool.len() == 0 {
    } else {
        let h = spec_hash_u64(seed);
        let raw = (h as int % (pool.len() as int + 1)) as usize;
        lemma_seq_max_properties(pool);
        let picked = spec_map_to_qualified(raw, pool);
        lemma_map_to_qualified_contains(raw, pool);
        let rest_pool = spec_remove_value(pool, picked);
        lemma_remove_value_distinct(pool, picked);
        lemma_choose_randomly_properties(h, rest_pool, (count - 1) as nat);
        let rest = spec_choose_randomly(h, rest_pool, (count - 1) as nat);
        assert(r == seq![picked] + rest);
        assert(r[0] == picked);
        assert forall|i: int| 0 <= i < r.len() implies pool.contains(#[trigger] r[i]) by {
            if i > 0 {
                assert(r[i] == rest[i - 1]);
                assert(rest_pool.contains(rest[i - 1]));
            }
        }
        assert forall|i: int, j: int| 0 <= i < j < r.len() implies r[i] != r[j] by {
            if i == 0 {
                assert(r[j] == rest[j - 1]);
                assert(rest_pool.contains(rest[j - 1]));
                assert(!rest_pool.contains(picked));
            } else {
                assert(r[i] == rest[i - 1] && r[j] == rest[j - 1]);
            }
        }
        assert(r.no_duplicates());
    }
}

/// The wrap-around search lands inside the pool.
pub proof fn lemma_map_to_qualified_contains(index: usize, pool: Seq<usize>)
    requires
        pool.len() > 0,
    ensures
        pool.contains(spec_map_to_qualified(index, pool)),
    decreases (if index <= seq_max(pool) {
        seq_max(pool) - index
    } else {
        seq_max(pool) + 1 as int
    }),
{
    lemma_seq_max_properties(pool);
    if pool.contains(index) {
    } else {
        let m = seq_max(pool) as int;
        let next = (((index as int + 1) % (m + 1)) as usize);
        if index <= seq_max(pool) {
            assert(index < seq_max(pool));
            vstd::arithmetic::div_mod::lemma_small_mod((index + 1) as nat, (m + 1) as nat);
        } else {
            vstd::arithmetic::div_mod::lemma_mod_bound(index as int + 1, m + 1);
        }
        lemma_map_to_qualified_contains(next, pool);
    }
}

/// The decimal rendering of a natural number, most significant digit first.
pub open spec fn spec_dec_digit(d: nat) -> char {
    if d == 0 { '0' } else if d == 1 { '1' } else if d == 2 { '2' } else if d == 3 { '3' }
    else if d == 4 { '4' } else if d == 5 { '5' } else if d == 6 { '6' } else if d == 7 { '7' }
    else if d == 8 { '8' } else { '9' }
}

/// The decimal digits of a natural number.
pub open spec fn spec_dec_digits(n: nat) -> Seq<char>
    decreases n,
{
    if n < 10 {
        seq![spec_dec_digit(n)]
    } else {
        spec_dec_digits(n / 10).push(spec_dec_digit(n % 10))
    }
}

} // verus!
