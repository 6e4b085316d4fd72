use tile_world::engine::gpu_handle::MaterialHandle;
use tile_world::engine::sprite_batching::batch_by_material;

fn material(index: u32) -> MaterialHandle {
    MaterialHandle { index, generation: 0 }
}

#[test]
fn sprites_are_grouped_by_material() {
    let a = material(1);
    let b = material(2);
    let mut batches = batch_by_material(&vec![a, b, a, a, b]);
    batches.sort_by_key(|(m, _)| m.index);
    assert_eq!(batches, vec![(a, vec![0, 2, 3]), (b, vec![1, 4])]);
}

#[test]
fn generations_tell_materials_apart() {
    let old = MaterialHandle { index: 4, generation: 0 };
    let new = MaterialHandle { index: 4, generation: 1 };
    let mut batches = batch_by_material(&vec![new, old, new]);
    batches.sort_by_key(|(m, _)| m.generation);
    assert_eq!(batches, vec![(old, vec![1]), (new, vec![0, 2])]);
}

#[test]
fn no_sprites_no_batches() {
    assert!(batch_by_material(&Vec::new()).is_empty());
}
