//! Contracts for the calls into `fxhash`, `fixedbitset`, `rand` and the parts
//! of std that the library uses without a proof of their own.
//!
//! Nothing here is verified: each contract restates what the source or the
//! documentation of the function it names promises.

use fixedbitset::FixedBitSet;
use fxhash::FxHashMap;
use rand::Rng;
use rand::seq::SliceRandom;
use vstd::prelude::*;

verus! {

/// `fxhash::FxHasher`, carried inside the hash builder of every Fx map.
#[verifier::external_type_specification]
#[verifier::external_body]
pub struct ExFxHasher(fxhash::FxHasher);

/// `std::hash::BuildHasherDefault`, the hash builder of every Fx map.
#[verifier::external_type_specification]
#[verifier::external_body]
#[verifier::reject_recursive_types(H)]
pub struct ExBuildHasherDefault<H>(std::hash::BuildHasherDefault<H>);

/// `fixedbitset::FixedBitSet`, a set of bit positions below a fixed length.
#[verifier::external_type_specification]
#[verifier::external_body]
pub struct ExFixedBitSet(FixedBitSet);

/// The positions that are enabled in a bit set.
pub uninterp spec fn bits_of(b: FixedBitSet) -> Set<int>;

/// The length in bits that a bit set was made with.
pub uninterp spec fn bit_length(b: FixedBitSet) -> int;

/// `String::push`: the character is appended.
#[verifier::external_body]
pub(crate) fn push_char(s: &mut String, c: char)
    ensures
        final(s)@ == old(s)@.push(c),
{
    s.push(c)
}

/// `HashMap::insert` on an Fx map keyed by room and door: the key maps to
/// the value afterwards and every other key is as before.
#[verifier::external_body]
pub(crate) fn door_map_insert<V>(m: &mut FxHashMap<(usize, usize), V>, key: (usize, usize), value: V)
    ensures
        final(m)@ == old(m)@.insert(key, value),
{
    m.insert(key, value);
}

/// `HashMap::get` on an Fx map keyed by room and door: the value of the key,
/// if the map holds the key.
#[verifier::external_body]
pub(crate) fn door_map_get<V: Copy>(m: &FxHashMap<(usize, usize), V>, key: (usize, usize)) -> (r:
    Option<V>)
    ensures
        r == if m@.contains_key(key) {
            Some(m@[key])
        } else {
            None
        },
{
    m.get(&key).copied()
}

/// `HashMap::remove` on an Fx map keyed by room and door: the key is gone
/// afterwards and every other key is as before.
#[verifier::external_body]
pub(crate) fn door_map_remove<V>(m: &mut FxHashMap<(usize, usize), V>, key: (usize, usize))
    ensures
        final(m)@ == old(m)@.remove(key),
{
    m.remove(&key);
}

/// `HashMap::iter` on an Fx map keyed by room and door, collected: every
/// entry of the map once, in no stated order.
#[verifier::external_body]
pub(crate) fn door_map_entries<V: Copy>(m: &FxHashMap<(usize, usize), V>) -> (entries: Vec<
    ((usize, usize), V),
>)
    ensures
        forall|i: int|
            0 <= i < entries.len() ==> m@.contains_key((#[trigger] entries[i]).0) && m@[entries[i].0]
                == entries[i].1,
        forall|key: (usize, usize)|
            m@.contains_key(key) ==> exists|i: int| 0 <= i < entries.len() && entries[i].0 == key,
        forall|i: int, j: int| 0 <= i < j < entries.len() ==> entries[i].0 != entries[j].0,
{
    m.iter().map(|(key, value)| (*key, *value)).collect()
}

/// `FixedBitSet::with_capacity`: a set of the given length with no bit
/// enabled.
#[verifier::external_body]
pub(crate) fn bitset_with_capacity(bits: usize) -> (b: FixedBitSet)
    ensures
        bits_of(b) == Set::<int>::empty(),
        bit_length(b) == bits,
{
    FixedBitSet::with_capacity(bits)
}

/// `FixedBitSet::insert`: enables one bit. The call panics on a position at
/// or beyond the length.
#[verifier::external_body]
pub(crate) fn bitset_insert(b: &mut FixedBitSet, bit: usize)
    requires
        bit < bit_length(*old(b)),
    ensures
        bits_of(*final(b)) == bits_of(*old(b)).insert(bit as int),
        bit_length(*final(b)) == bit_length(*old(b)),
{
    b.insert(bit)
}

/// `FixedBitSet::set`: enables or disables one bit. The call panics on a
/// position at or beyond the length.
#[verifier::external_body]
pub(crate) fn bitset_set(b: &mut FixedBitSet, bit: usize, enabled: bool)
    requires
        bit < bit_length(*old(b)),
    ensures
        bits_of(*final(b)) == if enabled {
            bits_of(*old(b)).insert(bit as int)
        } else {
            bits_of(*old(b)).remove(bit as int)
        },
        bit_length(*final(b)) == bit_length(*old(b)),
{
    b.set(bit, enabled)
}

/// The first item of `FixedBitSet::ones`: the lowest enabled bit, if any bit
/// is enabled.
#[verifier::external_body]
pub(crate) fn bitset_lowest(b: &FixedBitSet) -> (r: Option<usize>)
    ensures
        r is None ==> forall|bit: int| !bits_of(*b).contains(bit),
        r is Some ==> bits_of(*b).contains(r->0 as int) && forall|bit: int|
            bits_of(*b).contains(bit) ==> r->0 <= bit,
{
    b.ones().next()
}

/// `SliceRandom::choose` with the generator of the thread: one of the items,
/// or nothing where there is none. Which one is not stated.
#[verifier::external_body]
pub(crate) fn choose_one(candidates: &Vec<usize>) -> (r: Option<usize>)
    ensures
        candidates.len() == 0 ==> r is None,
        candidates.len() > 0 ==> r is Some && candidates@.contains(r->0),
{
    candidates.choose(&mut rand::thread_rng()).copied()
}

/// `Rng::gen_range` with the generator of the thread, on a half-open range:
/// some number of the range. The call panics on an empty range.
#[verifier::external_body]
pub(crate) fn random_between(low: usize, high: usize) -> (r: usize)
    requires
        low < high,
    ensures
        low <= r < high,
{
    rand::thread_rng().gen_range(low..high)
}

/// `Rng::gen_ratio` with the generator of the thread: true with the given
/// odds, so never with odds of zero and always with odds of one. The call
/// panics on a zero denominator and on odds above one.
#[verifier::external_body]
pub(crate) fn chance(numerator: u32, denominator: u32) -> (hit: bool)
    requires
        0 < denominator,
        numerator <= denominator,
    ensures
        numerator == 0 ==> !hit,
        numerator == denominator ==> hit,
{
    rand::thread_rng().gen_ratio(numerator, denominator)
}

} // verus!
