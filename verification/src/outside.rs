//! The outside types and calls that the generator relies on: bevy's
//! `HashMap`, the ChaCha random number generator and `rand`'s range sampling.
//!
//! Every item here is trusted: Verus believes its contract without proof.
//! Each `HashMap` instantiation has a name for what it holds, and each method
//! the logic calls has a small wrapper whose contract says what the method
//! does to those contents, as hashbrown's documented behaviour gives it.
use vstd::prelude::*;
use rand::RngExt;
use bevy::platform::collections::HashMap;
use crate::ivec::IVec2;
use crate::map::overmap_generator::{
    BuildingCandidate, City, CityId, OvermapChunk, OvermapChunkCoords,
};
use crate::map::renderer::ChunkData;

verus! {

/// Overmap chunks by their chunk coordinates.
pub type ChunkMap = HashMap<OvermapChunkCoords, OvermapChunk>;

/// The cities of one chunk, by id.
pub type CityMap = HashMap<CityId, City>;

/// Building candidates, by id.
pub type CandidateMap = HashMap<usize, BuildingCandidate>;

/// The candidate ids that cover each (chunk, local position).
pub type OccupancyMap = HashMap<(OvermapChunkCoords, IVec2), Vec<usize>>;

/// Renderable tile data by chunk position.
pub type ChunkDataMap = HashMap<IVec2, ChunkData>;

/// bevy's `HashMap`, a newtype around hashbrown's map with a fixed hasher.
#[verifier::external_type_specification]
#[verifier::external_body]
#[verifier::reject_recursive_types(K)]
#[verifier::reject_recursive_types(V)]
#[verifier::reject_recursive_types(S)]
pub struct ExHashMap<K, V, S>(HashMap<K, V, S>);

/// bevy's deterministic default hasher.
#[verifier::external_type_specification]
#[verifier::external_body]
pub struct ExFixedHasher(bevy::platform::hash::FixedHasher);

/// The ChaCha8 random number generator of the `chacha20` crate.
#[verifier::external_type_specification]
#[verifier::external_body]
pub struct ExChaCha8Rng(chacha20::ChaCha8Rng);

/// A generator seeded from `state`.
///
/// Calls `rand_core::SeedableRng::seed_from_u64` for `ChaCha8Rng`, which
/// expands the seed with a PCG32 stream into a ChaCha key. Nothing is stated of
/// the generator: it is only handed on to `random_range`.
#[verifier::external_body]
pub(crate) fn seeded_rng(state: u64) -> (r: chacha20::ChaCha8Rng) {
    <chacha20::ChaCha8Rng as rand::SeedableRng>::seed_from_u64(state)
}

/// A uniformly drawn integer in `lo..hi`.
///
/// Calls `rand::RngExt::random_range` with the range `lo..hi`. rand samples
/// an exclusive range `lo..hi` exactly as the inclusive range `lo..=hi - 1`
/// (`UniformInt::sample_single` forwards to `sample_single_inclusive`), so
/// callers that the game writes with `..=` pass `hi + 1`. The contract says
/// only that the value lies in the range: which value comes out depends on the
/// generator's state. rand panics on an empty range, which `requires` rules out.
#[verifier::external_body]
pub(crate) fn random_range(rng: &mut chacha20::ChaCha8Rng, lo: i32, hi: i32) -> (r: i32)
    requires
        lo < hi,
    ensures
        lo <= r < hi,
{
    rng.random_range(lo..hi)
}

// ---------------------------------------------------------------------------
// The map from chunk coordinates to overmap chunks.
// ---------------------------------------------------------------------------

/// What a map of overmap chunks holds, key by key.
pub uninterp spec fn chunk_map(m: ChunkMap) -> Map<OvermapChunkCoords, OvermapChunk>;

/// `HashMap::new`: an empty map.
#[verifier::external_body]
pub(crate) fn chunk_map_new() -> (r: ChunkMap)
    ensures
        chunk_map(r).dom().is_empty(),
{
    HashMap::new()
}

/// `HashMap::contains_key`: whether the key has a value.
#[verifier::external_body]
pub(crate) fn chunk_map_contains(m: &ChunkMap, k: &OvermapChunkCoords) -> (r: bool)
    ensures
        r == chunk_map(*m).contains_key(*k),
{
    m.contains_key(k)
}

/// `HashMap::get`: the value under the key, if any.
#[verifier::external_body]
pub(crate) fn chunk_map_get<'a>(m: &'a ChunkMap, k: &OvermapChunkCoords) -> (r: Option<&'a OvermapChunk>)
    ensures
        r is Some <==> chunk_map(*m).contains_key(*k),
        r matches Some(v) ==> *v == chunk_map(*m)[*k],
{
    m.get(k)
}

/// `HashMap::get_mut`: a mutable reference to the value under a present key;
/// what is written through it is what the map holds afterwards.
#[verifier::external_body]
pub(crate) fn chunk_map_get_mut<'a>(m: &'a mut ChunkMap, k: &OvermapChunkCoords) -> (r: Option<&'a mut OvermapChunk>)
    ensures
        r is Some <==> chunk_map(*old(m)).contains_key(*k),
        r is None ==> chunk_map(*final(m)) == chunk_map(*old(m)),
        r matches Some(v) ==> *v == chunk_map(*old(m))[*k],
        r matches Some(v) ==> chunk_map(*final(m)) == chunk_map(*old(m)).insert(*k, *final(v)),
{
    m.get_mut(k)
}

/// `HashMap::insert`: the key now holds the value.
#[verifier::external_body]
pub(crate) fn chunk_map_insert(m: &mut ChunkMap, k: OvermapChunkCoords, v: OvermapChunk)
    ensures
        chunk_map(*final(m)) == chunk_map(*old(m)).insert(k, v),
{
    m.insert(k, v);
}

/// `HashMap::keys`, collected: every key exactly once, in the map's own
/// walking order, which the contract leaves open.
#[verifier::external_body]
pub(crate) fn chunk_map_keys(m: &ChunkMap) -> (r: Vec<OvermapChunkCoords>)
    ensures
        r@.no_duplicates(),
        forall|k: OvermapChunkCoords| r@.contains(k) <==> chunk_map(*m).contains_key(k),
{
    m.keys().copied().collect()
}

// ---------------------------------------------------------------------------
// The cities of one chunk, by id.
// ---------------------------------------------------------------------------

/// What a map of cities holds, key by key.
pub uninterp spec fn city_map(m: CityMap) -> Map<CityId, City>;

/// `HashMap::new`: an empty map.
#[verifier::external_body]
pub(crate) fn city_map_new() -> (r: CityMap)
    ensures
        city_map(r).dom().is_empty(),
{
    HashMap::new()
}

/// `HashMap::get`: the value under the key, if any.
#[verifier::external_body]
pub(crate) fn city_map_get<'a>(m: &'a CityMap, k: &CityId) -> (r: Option<&'a City>)
    ensures
        r is Some <==> city_map(*m).contains_key(*k),
        r matches Some(v) ==> *v == city_map(*m)[*k],
{
    m.get(k)
}

/// `HashMap::get_mut`: a mutable reference to the value under a present key;
/// what is written through it is what the map holds afterwards.
#[verifier::external_body]
pub(crate) fn city_map_get_mut<'a>(m: &'a mut CityMap, k: &CityId) -> (r: Option<&'a mut City>)
    ensures
        r is Some <==> city_map(*old(m)).contains_key(*k),
        r is None ==> city_map(*final(m)) == city_map(*old(m)),
        r matches Some(v) ==> *v == city_map(*old(m))[*k],
        r matches Some(v) ==> city_map(*final(m)) == city_map(*old(m)).insert(*k, *final(v)),
{
    m.get_mut(k)
}

/// `HashMap::insert`: the key now holds the value.
#[verifier::external_body]
pub(crate) fn city_map_insert(m: &mut CityMap, k: CityId, v: City)
    ensures
        city_map(*final(m)) == city_map(*old(m)).insert(k, v),
{
    m.insert(k, v);
}

/// `HashMap::keys`, collected: every key exactly once, in the map's own
/// walking order, which the contract leaves open.
#[verifier::external_body]
pub(crate) fn city_map_keys(m: &CityMap) -> (r: Vec<CityId>)
    ensures
        r@.no_duplicates(),
        forall|k: CityId| r@.contains(k) <==> city_map(*m).contains_key(k),
{
    m.keys().copied().collect()
}

// ---------------------------------------------------------------------------
// Building candidates, by id.
// ---------------------------------------------------------------------------

/// What a map of building candidates holds, key by key.
pub uninterp spec fn candidate_map(m: CandidateMap) -> Map<usize, BuildingCandidate>;

/// `HashMap::new`: an empty map.
#[verifier::external_body]
pub(crate) fn candidate_map_new() -> (r: CandidateMap)
    ensures
        candidate_map(r).dom().is_empty(),
{
    HashMap::new()
}

/// `HashMap::get`: the value under the key, if any.
#[verifier::external_body]
pub(crate) fn candidate_map_get<'a>(m: &'a CandidateMap, k: usize) -> (r: Option<&'a BuildingCandidate>)
    ensures
        r is Some <==> candidate_map(*m).contains_key(k),
        r matches Some(v) ==> *v == candidate_map(*m)[k],
{
    m.get(&k)
}

/// `HashMap::insert`: the key now holds the value.
#[verifier::external_body]
pub(crate) fn candidate_map_insert(m: &mut CandidateMap, k: usize, v: BuildingCandidate)
    ensures
        candidate_map(*final(m)) == candidate_map(*old(m)).insert(k, v),
{
    m.insert(k, v);
}

/// `HashMap::remove`: the key no longer has a value.
#[verifier::external_body]
pub(crate) fn candidate_map_remove(m: &mut CandidateMap, k: usize)
    ensures
        candidate_map(*final(m)) == candidate_map(*old(m)).remove(k),
{
    m.remove(&k);
}

/// `HashMap::keys`, collected: every key exactly once, in the map's own
/// walking order, which the contract leaves open.
#[verifier::external_body]
pub(crate) fn candidate_map_keys(m: &CandidateMap) -> (r: Vec<usize>)
    ensures
        r@.no_duplicates(),
        forall|k: usize| r@.contains(k) <==> candidate_map(*m).contains_key(k),
{
    m.keys().copied().collect()
}

/// `Extend::extend` with the entries of another map: afterwards each of its
/// keys holds its value, and every other key keeps what it held.
#[verifier::external_body]
pub(crate) fn candidate_map_extend(m: &mut CandidateMap, other: CandidateMap)
    ensures
        candidate_map(*final(m)) == candidate_map(*old(m)).union_prefer_right(candidate_map(other)),
{
    m.extend(other);
}

// ---------------------------------------------------------------------------
// Which candidates cover a tile: (chunk, local position) to candidate ids.
// ---------------------------------------------------------------------------

/// What an occupancy map holds, key by key, each list taken as a sequence.
pub uninterp spec fn occupancy_map(m: OccupancyMap) -> Map<(OvermapChunkCoords, IVec2), Seq<usize>>;

/// `HashMap::new`: an empty map.
#[verifier::external_body]
pub(crate) fn occupancy_map_new() -> (r: OccupancyMap)
    ensures
        occupancy_map(r).dom().is_empty(),
{
    HashMap::new()
}

/// `HashMap::get`: the list under the key, if any.
#[verifier::external_body]
pub(crate) fn occupancy_map_get<'a>(m: &'a OccupancyMap, k: &(OvermapChunkCoords, IVec2)) -> (r: Option<&'a Vec<usize>>)
    ensures
        r is Some <==> occupancy_map(*m).contains_key(*k),
        r matches Some(v) ==> v@ == occupancy_map(*m)[*k],
{
    m.get(k)
}

/// `HashMap::insert`: the key now holds the list.
#[verifier::external_body]
pub(crate) fn occupancy_map_insert(m: &mut OccupancyMap, k: (OvermapChunkCoords, IVec2), v: Vec<usize>)
    ensures
        occupancy_map(*final(m)) == occupancy_map(*old(m)).insert(k, v@),
{
    m.insert(k, v);
}

/// `HashMap::remove`: the key no longer has a list.
#[verifier::external_body]
pub(crate) fn occupancy_map_remove(m: &mut OccupancyMap, k: &(OvermapChunkCoords, IVec2))
    ensures
        occupancy_map(*final(m)) == occupancy_map(*old(m)).remove(*k),
{
    m.remove(k);
}

/// `Extend::extend` with the entries of another map: afterwards each of its
/// keys holds its list, and every other key keeps what it held.
#[verifier::external_body]
pub(crate) fn occupancy_map_extend(m: &mut OccupancyMap, other: OccupancyMap)
    ensures
        occupancy_map(*final(m)) == occupancy_map(*old(m)).union_prefer_right(occupancy_map(other)),
{
    m.extend(other);
}

// ---------------------------------------------------------------------------
// Renderable tile data, by chunk position.
// ---------------------------------------------------------------------------

/// What a map of chunk data holds, key by key.
pub uninterp spec fn chunk_data_map(m: ChunkDataMap) -> Map<IVec2, ChunkData>;

/// `HashMap::new`: an empty map.
#[verifier::external_body]
pub(crate) fn chunk_data_map_new() -> (r: ChunkDataMap)
    ensures
        chunk_data_map(r).dom().is_empty(),
{
    HashMap::new()
}

/// `HashMap::insert`: the key now holds the value.
#[verifier::external_body]
pub(crate) fn chunk_data_map_insert(m: &mut ChunkDataMap, k: IVec2, v: ChunkData)
    ensures
        chunk_data_map(*final(m)) == chunk_data_map(*old(m)).insert(k, v),
{
    m.insert(k, v);
}

} // verus!
