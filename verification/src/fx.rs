//! The Fx hash, which bundle keys are computed with, and the map that finds a bundle by its key.
use core::hash::BuildHasherDefault;
use core::hash::Hasher;
use fxhash::FxBuildHasher;
use fxhash::FxHashMap;
use fxhash::FxHasher;
use vstd::arithmetic::div_mod::lemma_mod_multiples_vanish;
use vstd::arithmetic::div_mod::lemma_mul_mod_noop_left;
use vstd::arithmetic::div_mod::lemma_small_mod;
use vstd::prelude::*;

verus! {

/// `fxhash::FxHasher`: one machine word of state.
#[verifier::external_type_specification]
#[verifier::external_body]
pub struct ExFxHasher(FxHasher);

/// `core::hash::BuildHasherDefault`, the hasher builder behind `fxhash::FxBuildHasher`.
#[verifier::external_type_specification]
#[verifier::external_body]
#[verifier::reject_recursive_types(H)]
pub struct ExBuildHasherDefault<H>(BuildHasherDefault<H>);

/// The word that an `FxHasher` holds.
pub uninterp spec fn fx_state(hasher: FxHasher) -> usize;

/// One more than the largest machine word.
pub open spec fn word_modulus() -> int {
    if usize::BITS == 64 {
        0x1_0000_0000_0000_0000
    } else {
        0x1_0000_0000
    }
}

/// The odd constant by which the hash multiplies.
pub open spec fn fx_seed() -> int {
    if usize::BITS == 64 {
        0x517c_c1b7_2722_0a95
    } else {
        0x2722_0a95
    }
}

/// A machine word with its bits rotated to the left by five places.
pub open spec fn rotate_left_5(word: usize) -> usize {
    ((word * 32) % word_modulus() + (word * 32) / word_modulus()) as usize
}

/// The product of a machine word with the seed, without the bits that overflow.
pub open spec fn times_seed(word: usize) -> usize {
    ((word * fx_seed()) % word_modulus()) as usize
}

/// The state after `word` is mixed into `state`.
#[verifier::opaque]
pub open spec fn fx_word(state: usize, word: usize) -> usize {
    times_seed(rotate_left_5(state) ^ word)
}

/// The state after a 64-bit number is mixed into `state`: one word where machine words have
/// 64 bits, else the lower half and then the upper half.
pub open spec fn fx_u64(state: usize, i: u64) -> usize {
    if usize::BITS == 64 {
        fx_word(state, i as usize)
    } else {
        fx_word(
            fx_word(state, (i % 0x1_0000_0000) as usize),
            (i / 0x1_0000_0000) as usize,
        )
    }
}

/// `<FxHasher as Default>::default`: a fresh hasher holds zero.
pub assume_specification[ FxHasher::default ]() -> (hasher: FxHasher)
    ensures
        fx_state(hasher) == 0,
;

/// `<FxHasher as Hasher>::write_u8` mixes the byte in as one word.
pub assume_specification[ FxHasher::write_u8 ](hasher: &mut FxHasher, i: u8)
    ensures
        fx_state(*final(hasher)) == fx_word(fx_state(*old(hasher)), i as usize),
;

/// `<FxHasher as Hasher>::write_u32` mixes the number in as one word.
pub assume_specification[ FxHasher::write_u32 ](hasher: &mut FxHasher, i: u32)
    ensures
        fx_state(*final(hasher)) == fx_word(fx_state(*old(hasher)), i as usize),
;

/// `<FxHasher as Hasher>::write_u64` mixes the number in as one word of 64 bits, or as two of
/// 32 bits, the lower one first.
pub assume_specification[ FxHasher::write_u64 ](hasher: &mut FxHasher, i: u64)
    ensures
        fx_state(*final(hasher)) == fx_u64(fx_state(*old(hasher)), i),
;

/// `<FxHasher as Hasher>::write_usize` mixes the word in.
pub assume_specification[ FxHasher::write_usize ](hasher: &mut FxHasher, i: usize)
    ensures
        fx_state(*final(hasher)) == fx_word(fx_state(*old(hasher)), i),
;

/// `<FxHasher as Hasher>::finish` gives the state as it is.
pub assume_specification[ FxHasher::finish ](hasher: &FxHasher) -> (digest: u64)
    ensures
        digest == fx_state(*hasher),
;

/// Entries that the bundle map makes room for at most when it is created.
pub const MAP_RESERVE_LIMIT: usize = 0x100_0000;

/// `HashMap::with_capacity_and_hasher` with an `fxhash::FxBuildHasher`: the map is empty. The
/// bound keeps the size of the table within what every address width can express, beyond which
/// the call panics.
#[verifier::external_body]
pub(crate) fn fx_map_with_capacity(capacity: usize) -> (created: FxHashMap<u64, usize>)
    requires
        capacity <= MAP_RESERVE_LIMIT,
    ensures
        forall|key: u64| !created@.contains_key(key),
{
    FxHashMap::with_capacity_and_hasher(capacity, FxBuildHasher::default())
}

/// `HashMap::get` on a map that hashes with `fxhash::FxHasher`: the value under `key`, if there
/// is one.
#[verifier::external_body]
pub(crate) fn fx_map_get(map: &FxHashMap<u64, usize>, key: u64) -> (found: Option<usize>)
    ensures
        found == (if map@.contains_key(key) {
            Some(map@[key])
        } else {
            None
        }),
{
    map.get(&key).copied()
}

/// `HashMap::insert` on a map that hashes with `fxhash::FxHasher`: `value` comes to stand under
/// `key`, and nothing else changes.
#[verifier::external_body]
pub(crate) fn fx_map_insert(map: &mut FxHashMap<u64, usize>, key: u64, value: usize)
    ensures
        final(map)@ == old(map)@.insert(key, value),
{
    map.insert(key, value);
}

/// Multiplying by the inverse of the seed undoes the multiplication by the seed.
proof fn lemma_times_seed_injective(a: usize, b: usize)
    requires
        times_seed(a) == times_seed(b),
    ensures
        a == b,
{
    let m = word_modulus();
    let (inverse, quotient): (int, int) = if usize::BITS == 64 {
        (0x2040_003d_7809_70bd, 739706870995725965)
    } else {
        (0x7809_70bd, 307848804)
    };
    assert(fx_seed() * inverse == 1 + m * quotient);
    assert forall|x: usize| #[trigger] (((x * fx_seed()) % m) * inverse) % m == x by {
        let xi = x as int;
        lemma_mul_mod_noop_left(xi * fx_seed(), inverse, m);
        assert((xi * fx_seed()) * inverse == m * (quotient * xi) + xi) by (nonlinear_arith)
            requires
                fx_seed() * inverse == 1 + m * quotient,
        ;
        lemma_mod_multiples_vanish(quotient * xi, xi, m);
        lemma_small_mod(x as nat, m as nat);
    }
    assert((((a * fx_seed()) % m) * inverse) % m == a);
    assert((((b * fx_seed()) % m) * inverse) % m == b);
}

proof fn lemma_rotate_injective(a: usize, b: usize)
    requires
        rotate_left_5(a) == rotate_left_5(b),
    ensures
        a == b,
{
}

/// Mixing two different words into one state gives two different states.
pub proof fn fx_word_separates_words(state: usize, a: usize, b: usize)
    requires
        a != b,
    ensures
        fx_word(state, a) != fx_word(state, b),
{
    reveal(fx_word);
    if fx_word(state, a) == fx_word(state, b) {
        let r = rotate_left_5(state);
        lemma_times_seed_injective(r ^ a, r ^ b);
        assert(r ^ a == r ^ b ==> a == b) by (bit_vector);
    }
}

/// Mixing one word into two different states gives two different states.
pub proof fn fx_word_separates_states(s: usize, t: usize, word: usize)
    requires
        s != t,
    ensures
        fx_word(s, word) != fx_word(t, word),
{
    reveal(fx_word);
    if fx_word(s, word) == fx_word(t, word) {
        let a = rotate_left_5(s);
        let b = rotate_left_5(t);
        lemma_times_seed_injective(a ^ word, b ^ word);
        assert(a ^ word == b ^ word ==> a == b) by (bit_vector);
        lemma_rotate_injective(s, t);
    }
}

/// Mixing one 64-bit number into two different states gives two different states.
pub proof fn fx_u64_separates_states(s: usize, t: usize, i: u64)
    requires
        s != t,
    ensures
        fx_u64(s, i) != fx_u64(t, i),
{
    if usize::BITS == 64 {
        fx_word_separates_states(s, t, i as usize);
    } else {
        let low = (i % 0x1_0000_0000) as usize;
        fx_word_separates_states(s, t, low);
        fx_word_separates_states(
            fx_word(s, low),
            fx_word(t, low),
            (i / 0x1_0000_0000) as usize,
        );
    }
}

/// Mixing two different 64-bit numbers into one state gives two different states, where machine
/// words have 64 bits, and elsewhere where the numbers agree in one of their halves.
pub proof fn fx_u64_separates_numbers(state: usize, i: u64, j: u64)
    requires
        i != j,
        usize::BITS == 64 || i % 0x1_0000_0000 == j % 0x1_0000_0000 || i / 0x1_0000_0000 == j
            / 0x1_0000_0000,
    ensures
        fx_u64(state, i) != fx_u64(state, j),
{
    if usize::BITS == 64 {
        fx_word_separates_words(state, i as usize, j as usize);
    } else {
        let (il, ih) = ((i % 0x1_0000_0000) as usize, (i / 0x1_0000_0000) as usize);
        let (jl, jh) = ((j % 0x1_0000_0000) as usize, (j / 0x1_0000_0000) as usize);
        if il == jl {
            fx_word_separates_words(fx_word(state, il), ih, jh);
        } else {
            fx_word_separates_words(state, il, jl);
            fx_word_separates_states(fx_word(state, il), fx_word(state, jl), ih);
        }
    }
}

} // verus!
