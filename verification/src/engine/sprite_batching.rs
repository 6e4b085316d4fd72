use vstd::prelude::*;
use ahash::AHashMap;
use crate::engine::gpu_handle::MaterialHandle;

verus! {

/// A material as the key of the batch table: (index, generation).
pub type MaterialKey = (u32, u32);

/// Key of material `m` in the batch table.
pub open spec fn material_key(m: MaterialHandle) -> MaterialKey {
    (m.index, m.generation)
}

/// The sprite positions that a batch table holds, by material.
pub uninterp spec fn batch_table(m: AHashMap<MaterialKey, Vec<usize>>) -> Map<MaterialKey, Seq<usize>>;

/// `AHashMap::new`: the new map holds no batch.
#[verifier::external_body]
fn batches_new() -> (r: AHashMap<MaterialKey, Vec<usize>>)
    ensures
        batch_table(r).dom() == Set::<MaterialKey>::empty(),
{
    AHashMap::new()
}

/// `AHashMap::remove`: takes the batch stored under `key` out of the map.
#[verifier::external_body]
fn batches_remove(m: &mut AHashMap<MaterialKey, Vec<usize>>, key: MaterialKey) -> (r: Option<Vec<usize>>)
    ensures
        batch_table(*final(m)) == batch_table(*old(m)).remove(key),
        r is Some <==> batch_table(*old(m)).contains_key(key),
        r matches Some(v) ==> v@ == batch_table(*old(m))[key],
{
    m.remove(&key)
}

/// `AHashMap::insert`: stores `batch` under `key`, replacing what was there.
#[verifier::external_body]
fn batches_insert(m: &mut AHashMap<MaterialKey, Vec<usize>>, key: MaterialKey, batch: Vec<usize>) -> (r: Option<Vec<usize>>)
    ensures
        batch_table(*final(m)) == batch_table(*old(m)).insert(key, batch@),
{
    m.insert(key, batch)
}

/// `AHashMap::into_iter`, collected: every (key, batch) entry of the map
/// exactly once. The order is the map's iteration order, which depends on
/// the hasher's per-process random seed, so nothing is said of it.
#[verifier::external_body]
fn batches_into_entries(m: AHashMap<MaterialKey, Vec<usize>>) -> (r: Vec<(MaterialKey, Vec<usize>)>)
    ensures
        r@.map_values(|e: (MaterialKey, Vec<usize>)| e.0).no_duplicates(),
        forall|t: int| 0 <= t < r@.len() ==> {
            &&& batch_table(m).contains_key((#[trigger] r@[t]).0)
            &&& r@[t].1@ == batch_table(m)[r@[t].0]
        },
        forall|k: MaterialKey| batch_table(m).contains_key(k) ==> exists|t: int| 0 <= t < r@.len() && (#[trigger] r@[t]).0 == k,
{
    m.into_iter().collect()
}

/// Positions, in increasing order, of the first `n` sprites that use a
/// material with key `k`.
pub open spec fn positions_with(materials: Seq<MaterialHandle>, k: MaterialKey, n: int) -> Seq<usize> {
    Seq::new(n as nat, |i: int| i as usize).filter(|i: usize| material_key(materials[i as int]) == k)
}

/// The batch table of the sprites' materials: one entry per material in
/// use, holding the positions of its sprites in increasing order.
fn group_positions(materials: &Vec<MaterialHandle>) -> (batches: AHashMap<MaterialKey, Vec<usize>>)
    ensures
        forall|k: MaterialKey| #[trigger] batch_table(batches).contains_key(k) <==> exists|j: int|
            0 <= j < materials@.len() && material_key(#[trigger] materials@[j]) == k,
        forall|k: MaterialKey| #[trigger] batch_table(batches).contains_key(k) ==> batch_table(batches)[k]
            == positions_with(materials@, k, materials@.len() as int),
{
    let mut batches = batches_new();
    let mut i: usize = 0;
    while i < materials.len()
        invariant
            i <= materials@.len(),
            forall|k: MaterialKey| #[trigger] batch_table(batches).contains_key(k) <==> exists|j: int|
                0 <= j < i && material_key(#[trigger] materials@[j]) == k,
            forall|k: MaterialKey| #[trigger] batch_table(batches).contains_key(k) ==> batch_table(batches)[k]
                == positions_with(materials@, k, i as int),
        decreases materials@.len() - i,
    {
        let m = materials[i];
        let key = (m.index, m.generation);
        let ghost before = batch_table(batches);
        proof {
            lemma_positions_step(materials@, i as int);
            if !before.contains_key(key) {
                lemma_positions_none(materials@, key, i as int);
            }
        }
        match batches_remove(&mut batches, key) {
            Some(mut batch) => {
                batch.push(i);
                let _ = batches_insert(&mut batches, key, batch);
            },
            None => {
                let mut batch: Vec<usize> = Vec::new();
                batch.push(i);
                let _ = batches_insert(&mut batches, key, batch);
            },
        }
        proof {
            assert forall|k: MaterialKey| #[trigger] batch_table(batches).contains_key(k) <==> exists|j: int|
                0 <= j < i + 1 && material_key(#[trigger] materials@[j]) == k by {
                if k == key {
                    assert(material_key(materials@[i as int]) == k);
                } else if before.contains_key(k) {
                    let j = choose|j: int| 0 <= j < i && material_key(#[trigger] materials@[j]) == k;
                    assert(material_key(materials@[j]) == k);
                } else if exists|j: int| 0 <= j < i + 1 && material_key(#[trigger] materials@[j]) == k {
                    let j = choose|j: int| 0 <= j < i + 1 && material_key(#[trigger] materials@[j]) == k;
                    assert(j != i);
                }
            }
        }
        i = i + 1;
    }
    batches
}

/// Extending the sprites by one adds that sprite's position to its
/// material's positions only.
proof fn lemma_positions_step(materials: Seq<MaterialHandle>, i: int)
    requires
        0 <= i < materials.len(),
        materials.len() <= usize::MAX,
    ensures
        forall|k: MaterialKey| #[trigger] positions_with(materials, k, i + 1) == if material_key(materials[i]) == k {
            positions_with(materials, k, i).push(i as usize)
        } else {
            positions_with(materials, k, i)
        },
{
    reveal_with_fuel(Seq::filter, 1);
    assert forall|k: MaterialKey| #[trigger] positions_with(materials, k, i + 1) == if material_key(materials[i]) == k {
        positions_with(materials, k, i).push(i as usize)
    } else {
        positions_with(materials, k, i)
    } by {
        let s1 = Seq::new((i + 1) as nat, |j: int| j as usize);
        let s0 = Seq::new(i as nat, |j: int| j as usize);
        assert(s1.drop_last() =~= s0);
        assert(s1.last() == i as usize);
    }
}

/// A material that no sprite before `i` uses has no positions before `i`.
proof fn lemma_positions_none(materials: Seq<MaterialHandle>, k: MaterialKey, i: int)
    requires
        0 <= i <= materials.len(),
        forall|j: int| 0 <= j < i ==> material_key(#[trigger] materials[j]) != k,
    ensures
        positions_with(materials, k, i) == Seq::<usize>::empty(),
{
    let pred = |x: usize| material_key(materials[x as int]) == k;
    let s0 = Seq::new(i as nat, |j: int| j as usize);
    let f = s0.filter(pred);
    if f.len() > 0 {
        s0.lemma_filter_pred(pred, 0);
        assert(f.contains(f[0]));
        s0.lemma_filter_contains_rev(pred, f[0]);
    }
    assert(f =~= Seq::<usize>::empty());
}

/// Turns batch table entries back into (material, positions) batches.
fn entries_to_batches(entries: Vec<(MaterialKey, Vec<usize>)>) -> (r: Vec<(MaterialHandle, Vec<usize>)>)
    ensures
        r@.len() == entries@.len(),
        forall|t: int| 0 <= t < r@.len() ==> material_key((#[trigger] r@[t]).0) == entries@[t].0 && r@[t].1@ == entries@[t].1@,
{
    let mut r: Vec<(MaterialHandle, Vec<usize>)> = Vec::new();
    let mut entries = entries;
    let ghost all = entries@;
    assert(all.len() == entries.len());
    let mut done: usize = 0;
    while entries.len() > 0
        invariant
            done <= all.len(),
            all.len() <= usize::MAX,
            entries@ == all.skip(done as int),
            r@.len() == done,
            forall|t: int| 0 <= t < done ==> material_key((#[trigger] r@[t]).0) == all[t].0 && r@[t].1@ == all[t].1@,
        decreases entries@.len(),
    {
        let (key, batch) = entries.remove(0);
        proof {
            assert(all[done as int] == (key, batch));
            assert(all.skip(done + 1) =~= all.skip(done as int).remove(0));
        }
        r.push((MaterialHandle { index: key.0, generation: key.1 }, batch));
        done = done + 1;
    }
    r
}

/// Groups sprites by material: one batch per material in use, holding the
/// positions of its sprites in increasing order. Batches come in the batch
/// table's iteration order.
pub fn batch_by_material(materials: &Vec<MaterialHandle>) -> (r: Vec<(MaterialHandle, Vec<usize>)>)
    ensures
        r@.map_values(|e: (MaterialHandle, Vec<usize>)| material_key(e.0)).no_duplicates(),
        forall|t: int| 0 <= t < r@.len() ==> (#[trigger] r@[t]).1@ == positions_with(
            materials@,
            material_key(r@[t].0),
            materials@.len() as int,
        ),
        forall|t: int| 0 <= t < r@.len() ==> materials@.contains((#[trigger] r@[t]).0),
        forall|m: MaterialHandle| #[trigger] materials@.contains(m) ==> r@.map_values(
            |e: (MaterialHandle, Vec<usize>)| e.0,
        ).contains(m),
{
    let batches = group_positions(materials);
    let ghost table = batch_table(batches);
    let entries = batches_into_entries(batches);
    let ghost all = entries@;
    let r = entries_to_batches(entries);
    proof {
        let mk = |e: (MaterialHandle, Vec<usize>)| material_key(e.0);
        let ak = |e: (MaterialKey, Vec<usize>)| e.0;
        assert(r@.map_values(mk) =~= all.map_values(ak));
        assert forall|t: int| 0 <= t < r@.len() implies materials@.contains((#[trigger] r@[t]).0) by {
            assert(table.contains_key(all[t].0));
            let j = choose|j: int| 0 <= j < materials@.len() && material_key(#[trigger] materials@[j]) == all[t].0;
            assert(materials@[j] == r@[t].0);
        }
        assert forall|m: MaterialHandle| #[trigger] materials@.contains(m) implies r@.map_values(
            |e: (MaterialHandle, Vec<usize>)| e.0,
        ).contains(m) by {
            let i = choose|i: int| 0 <= i < materials@.len() && materials@[i] == m;
            let k = material_key(materials@[i]);
            assert(table.contains_key(k));
            let t = choose|t: int| 0 <= t < all.len() && (#[trigger] all[t]).0 == k;
            assert(r@[t].0 == m);
            assert(r@.map_values(|e: (MaterialHandle, Vec<usize>)| e.0)[t] == m);
        }
    }
    r
}

} // verus!
