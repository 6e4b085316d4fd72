use vstd::prelude::*;
use ahash::AHashMap;
use crate::game::terrain::chunk::Chunk;

verus! {

/// `ahash::AHashMap`, the hash map that holds the loaded chunks.
#[verifier::external_type_specification]
#[verifier::external_body]
#[verifier::reject_recursive_types(K)]
#[verifier::reject_recursive_types(V)]
#[verifier::reject_recursive_types(S)]
pub struct ExAHashMap<K, V, S>(AHashMap<K, V, S>);

/// `ahash::RandomState`, the hasher builder of `AHashMap`.
#[verifier::external_type_specification]
#[verifier::external_body]
pub struct ExAHashRandomState(ahash::RandomState);

/// Coordinates of a chunk, as the key of the chunk table.
pub type ChunkKey = (i32, i32);

/// The chunks that a chunk table holds, by chunk coordinates.
pub uninterp spec fn chunk_table(m: AHashMap<ChunkKey, Chunk>) -> Map<ChunkKey, Chunk>;

/// `AHashMap::new`: the new map holds no chunk.
#[verifier::external_body]
pub(crate) fn table_new() -> (r: AHashMap<ChunkKey, Chunk>)
    ensures
        chunk_table(r).dom() == Set::<ChunkKey>::empty(),
{
    AHashMap::new()
}

/// `AHashMap::get`: the chunk stored under `key`, if any.
#[verifier::external_body]
pub(crate) fn table_get(m: &AHashMap<ChunkKey, Chunk>, key: ChunkKey) -> (r: Option<&Chunk>)
    ensures
        r is Some <==> chunk_table(*m).contains_key(key),
        r matches Some(c) ==> *c == chunk_table(*m)[key],
{
    m.get(&key)
}

/// `AHashMap::contains_key` (through `Deref` to `std::collections::HashMap`):
/// whether a chunk is stored under `key`.
#[verifier::external_body]
pub(crate) fn table_contains(m: &AHashMap<ChunkKey, Chunk>, key: ChunkKey) -> (r: bool)
    ensures
        r == chunk_table(*m).contains_key(key),
{
    m.contains_key(&key)
}

/// `AHashMap::insert`: stores `chunk` under `key`, replacing the chunk that
/// was there, which it returns.
#[verifier::external_body]
pub(crate) fn table_insert(m: &mut AHashMap<ChunkKey, Chunk>, key: ChunkKey, chunk: Chunk) -> (r: Option<Chunk>)
    ensures
        chunk_table(*final(m)) == chunk_table(*old(m)).insert(key, chunk),
        r is Some <==> chunk_table(*old(m)).contains_key(key),
        r matches Some(c) ==> c == chunk_table(*old(m))[key],
{
    m.insert(key, chunk)
}

/// `AHashMap::remove`: takes the chunk stored under `key` out of the map.
#[verifier::external_body]
pub(crate) fn table_remove(m: &mut AHashMap<ChunkKey, Chunk>, key: ChunkKey) -> (r: Option<Chunk>)
    ensures
        chunk_table(*final(m)) == chunk_table(*old(m)).remove(key),
        r is Some <==> chunk_table(*old(m)).contains_key(key),
        r matches Some(c) ==> c == chunk_table(*old(m))[key],
{
    m.remove(&key)
}

/// `AHashMap::keys` (through `Deref` to `std::collections::HashMap`),
/// collected: every key of the map exactly once. The order is the map's
/// iteration order, which depends on the hasher's per-process random seed,
/// so nothing is said of it.
#[verifier::external_body]
pub(crate) fn table_keys(m: &AHashMap<ChunkKey, Chunk>) -> (r: Vec<ChunkKey>)
    ensures
        r@.no_duplicates(),
        forall|k: ChunkKey| r@.contains(k) <==> chunk_table(*m).contains_key(k),
{
    m.keys().copied().collect()
}

} // verus!
