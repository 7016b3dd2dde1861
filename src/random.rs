//! The random source of a session and the calls into `rand` and
//! `random_data` that draw from it.

use rand::seq::IndexedRandom;
use rand::{Rng, SeedableRng};
use rand_chacha::ChaCha20Rng;
use random_data::{DataGenerator, DataType};
use vstd::prelude::*;

use crate::text::texts;

verus! {

#[verifier::external_type_specification]
#[verifier::external_body]
pub struct ExChaCha20Rng(ChaCha20Rng);


/// Whether `random_data` knows a data type of this name.
pub uninterp spec fn is_primitive(name: Seq<char>) -> bool;

/// The values of a catalog data type that is defined by a list of values.
pub uninterp spec fn catalog_values_of(name: Seq<char>) -> Option<Seq<Seq<char>>>;

/// Relies on `SeedableRng::seed_from_u64`: a ChaCha20 generator seeded with `seed`.
#[verifier::external_body]
pub(crate) fn seeded_generator(seed: u64) -> ChaCha20Rng {
    ChaCha20Rng::seed_from_u64(seed)
}

/// Relies on `rand::random`: a seed drawn from the thread-local generator.
#[verifier::external_body]
pub(crate) fn fresh_seed() -> u64 {
    rand::random()
}

/// Relies on `Rng::random_range` over an inclusive range: the value drawn lies
/// in it; the range is not empty, so the call does not panic.
#[verifier::external_body]
pub(crate) fn random_in(rng: &mut ChaCha20Rng, low: u64, high: u64) -> (r:
    u64)
    requires
        low <= high,
    ensures
        low <= r <= high,
{
    rng.random_range(low..=high)
}

/// Relies on `Rng::random_ratio`, which panics only on a zero denominator or a
/// numerator above it.
#[verifier::external_body]
pub(crate) fn random_ratio(
    rng: &mut ChaCha20Rng,
    numerator: u32,
    denominator: u32,
) -> bool
    requires
        0 < denominator,
        numerator <= denominator,
{
    rng.random_ratio(numerator, denominator)
}

/// Relies on `IndexedRandom::choose`: one of the values, and none only when
/// there are none.
#[verifier::external_body]
pub(crate) fn random_choice(rng: &mut ChaCha20Rng, values: &Vec<String>) -> (r: Option<String>)
    ensures
        r is None <==> values@.len() == 0,
        r matches Some(v) ==> texts(values@).contains(v@),
{
    values.choose(rng).cloned()
}

/// Relies on `DataType::try_from` and `DataType::random`: a name of the
/// catalog gives a value, drawn from its list of values where it has one; any
/// other name gives none.
#[verifier::external_body]
pub(crate) fn random_primitive(rng: &mut ChaCha20Rng, name: &str) -> (r:
    Option<String>)
    ensures
        r.is_some() == is_primitive(name@),
        r matches Some(v) ==> (catalog_values_of(name@) matches Some(vs) ==> vs.contains(v@)),
{
    match DataType::try_from(name) {
        Ok(t) => Some(t.random(&mut DataGenerator::from(&mut *rng))),
        Err(()) => None,
    }
}

/// Relies on `DataType::try_from` and `DataType::values`: for a name of the
/// catalog, its list of values if it is defined by one.
#[verifier::external_body]
pub(crate) fn primitive_values(name: &str) -> (r: Option<Option<Vec<String>>>)
    ensures
        r.is_some() == is_primitive(name@),
        r matches Some(vs) ==> match vs {
            Some(v) => catalog_values_of(name@) == Some(texts(v@)),
            None => catalog_values_of(name@) is None,
        },
{
    match DataType::try_from(name) {
        Ok(t) => Some(t.values().map(|vs| vs.iter().map(|v| (*v).to_owned()).collect())),
        Err(()) => None,
    }
}

/// Relies on `DataType::list_str`: the names listed are exactly those that
/// `DataType::try_from` accepts, since both come from one list.
#[verifier::external_body]
pub(crate) fn primitive_names() -> (r: Vec<String>)
    ensures
        forall|i: int| 0 <= i < r@.len() ==> is_primitive(#[trigger] r@[i]@),
        forall|n: Seq<char>| #[trigger] is_primitive(n) ==> texts(r@).contains(n),
{
    DataType::list_str().iter().map(|v| (*v).to_owned()).collect()
}

} // verus!
