use pathtracer::scene::model::{TriangleLists, NO_INDEX};
use pathtracer::scene::scene::{count_present, merge_model_lists, scene_fits_check, ModelLists};

fn model(indices: Vec<u32>, emissive: Vec<u32>, materials: Vec<u32>, vertices: usize, mats: usize) -> ModelLists {
    ModelLists {
        lists: TriangleLists { indices, emissive_triangles: emissive, triangles_material: materials },
        vertex_count: vertices,
        material_count: mats,
    }
}

#[test]
fn models_are_laid_out_one_after_the_other() {
    let models = vec![
        model(vec![0, 1, 2, 2, 1, 3], vec![1], vec![0, NO_INDEX], 4, 1),
        model(vec![0, 1, 2], vec![NO_INDEX], vec![1], 3, 2),
        model(vec![2, 0, 1], vec![0], vec![0], 3, 1),
    ];
    let scene = merge_model_lists(&models);
    assert_eq!(scene.indices, vec![0, 1, 2, 2, 1, 3, 4, 5, 6, 9, 7, 8]);
    assert_eq!(scene.emissive_triangles, vec![1, NO_INDEX, 3]);
    assert_eq!(scene.triangle_materials, vec![0, NO_INDEX, 2, 3]);
    assert_eq!(scene.emissive_triangles_count, 2);
}

#[test]
fn no_emissive_triangle_counts_zero() {
    let models = vec![
        model(vec![0, 1, 2], vec![NO_INDEX], vec![0], 3, 1),
        model(vec![0, 1, 2], vec![NO_INDEX], vec![0], 3, 1),
    ];
    let scene = merge_model_lists(&models);
    assert_eq!(scene.emissive_triangles, vec![NO_INDEX, NO_INDEX]);
    assert_eq!(scene.emissive_triangles_count, 0);
}

#[test]
fn empty_scene_is_empty() {
    let scene = merge_model_lists(&vec![]);
    assert!(scene.indices.is_empty());
    assert!(scene.emissive_triangles.is_empty());
    assert!(scene.triangle_materials.is_empty());
    assert_eq!(scene.emissive_triangles_count, 0);
}

#[test]
fn present_entries_are_counted() {
    assert_eq!(count_present(&vec![]), 0);
    assert_eq!(count_present(&vec![NO_INDEX, 3, NO_INDEX, 0]), 2);
}

#[test]
fn scene_fits_check_accepts_and_refuses() {
    let ok = vec![model(vec![0, 1, 2], vec![0], vec![0], 3, 1), model(vec![0, 1, 2], vec![NO_INDEX], vec![0], 3, 1)];
    assert!(scene_fits_check(&ok));
    assert!(scene_fits_check(&vec![]));
    // The second model's index u32::MAX - 2 shifted by 3 vertices overflows.
    let index_overflow = vec![
        model(vec![0, 1, 2], vec![NO_INDEX], vec![0], 3, 1),
        model(vec![u32::MAX - 2, 0, 1], vec![NO_INDEX], vec![0], 3, 1),
    ];
    assert!(!scene_fits_check(&index_overflow));
    // NO_INDEX entries are never shifted, so they never overflow.
    let sentinels = vec![
        model(vec![0, 1, 2], vec![NO_INDEX], vec![NO_INDEX], 3, 1),
        model(vec![0, 1, 2], vec![NO_INDEX], vec![NO_INDEX], 3, 1),
    ];
    assert!(scene_fits_check(&sentinels));
    // A material entry past u32::MAX once shifted.
    let material_overflow = vec![
        model(vec![0, 1, 2], vec![NO_INDEX], vec![0], 3, 5),
        model(vec![0, 1, 2], vec![NO_INDEX], vec![u32::MAX - 3], 3, 1),
    ];
    assert!(!scene_fits_check(&material_overflow));
    // Too many vertices in all.
    let too_many_vertices = vec![
        model(vec![0, 1, 2], vec![NO_INDEX], vec![0], u32::MAX as usize, 1),
        model(vec![0, 1, 2], vec![NO_INDEX], vec![0], 1, 1),
    ];
    assert!(!scene_fits_check(&too_many_vertices));
}
