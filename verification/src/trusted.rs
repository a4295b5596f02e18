//! The calls this library makes into code that is not verified with it: maps
//! hashed with FNV, the sort of the standard library, and the parallel walk
//! of rayon. The contracts here are believed, not proved.

use crate::cdf::ascending;
use crate::colour::{colour_known, recolour, recoloured, ColourRange, Ratio};
use crate::pixel::Pixel;
use core::hash::BuildHasherDefault;
use fnv::{FnvHashMap, FnvHasher};
use rayon::prelude::{IndexedParallelIterator, IntoParallelRefMutIterator, ParallelIterator};
use vstd::prelude::*;

verus! {

/// `fnv::FnvHasher`, the hasher of the maps that this library keeps.
#[verifier::external_type_specification]
#[verifier::external_body]
pub struct ExFnvHasher(FnvHasher);

/// `core::hash::BuildHasherDefault`, through which a map makes its hashers.
#[verifier::external_type_specification]
#[verifier::external_body]
#[verifier::reject_recursive_types(H)]
pub struct ExBuildHasherDefault<H>(BuildHasherDefault<H>);

/// `HashMap::get` on a map hashed with FNV: the value stored under `key`, or
/// `None` where the map holds no such key. An `FnvHasher` hashes equal keys
/// alike, so a key that was stored is found again.
#[verifier::external_body]
pub(crate) fn lookup<'a, V>(map: &'a FnvHashMap<u32, V>, key: u32) -> (found: Option<&'a V>)
    ensures
        found == if map@.contains_key(key) {
            Some(&map@[key])
        } else {
            None
        },
{
    map.get(&key)
}

/// `HashMap::insert` on a map hashed with FNV: afterwards the map holds
/// `value` under `key`, in place of what it held there before, and every
/// other key as before.
#[verifier::external_body]
pub(crate) fn store<V>(map: &mut FnvHashMap<u32, V>, key: u32, value: V)
    ensures
        final(map)@ == old(map)@.insert(key, value),
{
    map.insert(key, value);
}

/// `<[u32]>::sort`: afterwards the vector holds the labels it held before,
/// each as often as before, in ascending order.
#[verifier::external_body]
pub(crate) fn sort_labels(labels: &mut Vec<u32>)
    ensures
        final(labels)@.to_multiset() == old(labels)@.to_multiset(),
        ascending(final(labels)@),
{
    labels.sort();
}

/// rayon's `par_iter_mut().enumerate().for_each(..)`: runs [`recolour`] once
/// on every colour range, each with its own offset, on the threads of rayon's
/// pool, and returns when all have run. The ranges do not depend on one
/// another, so the outcome is that of running them in any order.
#[verifier::external_body]
pub(crate) fn recolour_each(
    colour_ranges: &mut [ColourRange],
    all_pixels: &[Pixel],
    histogram_ranges: &FnvHashMap<u32, Ratio>,
)
    requires
        old(colour_ranges)@.len() <= all_pixels@.len(),
        forall|i: int|
            0 <= i < old(colour_ranges)@.len() ==> colour_known(
                #[trigger] all_pixels@[i],
                histogram_ranges@,
            ),
    ensures
        final(colour_ranges)@.len() == old(colour_ranges)@.len(),
        forall|i: int|
            0 <= i < old(colour_ranges)@.len() ==> #[trigger] final(colour_ranges)@[i]
                == recoloured(old(colour_ranges)@[i], all_pixels@[i], histogram_ranges@),
{
    colour_ranges.par_iter_mut().enumerate().for_each(
        |(index, colour_range)| recolour(index, colour_range, all_pixels, histogram_ranges),
    );
}

} // verus!
