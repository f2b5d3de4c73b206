use pathtracer::scene::model::{
    image_texture_types, remap_materials, texture_color_space, texture_slot, texture_type_of, to_rgba8,
    unique_image_indices, MaterialTextures, ModelError, ModelTextureType, PixelFormat, TextureColorSpace,
    TriangleLists, NO_INDEX, NO_TEXTURE,
};

fn mat(base: u32, mr: u32, emissive: u32, normal: u32) -> MaterialTextures {
    MaterialTextures {
        base_color_texture: base,
        metallic_roughness_texture: mr,
        emissive_texture: emissive,
        normal_texture: normal,
    }
}

#[test]
fn rgb_gains_opaque_alpha() {
    let out = to_rgba8(PixelFormat::R8G8B8, &vec![1, 2, 3, 4, 5, 6, 7]).unwrap();
    assert_eq!(out, vec![1, 2, 3, 255, 4, 5, 6, 255]);
}

#[test]
fn rgba_is_kept() {
    let px = vec![9, 8, 7, 6, 5, 4, 3, 2];
    assert_eq!(to_rgba8(PixelFormat::R8G8B8A8, &px).unwrap(), px);
}

#[test]
fn red_becomes_red_pixels() {
    assert_eq!(to_rgba8(PixelFormat::R8, &vec![9, 200]).unwrap(), vec![9, 0, 0, 255, 200, 0, 0, 255]);
    assert_eq!(to_rgba8(PixelFormat::R8, &vec![]).unwrap(), Vec::<u8>::new());
}

#[test]
fn other_formats_are_refused() {
    for f in [
        PixelFormat::R8G8,
        PixelFormat::R16,
        PixelFormat::R16G16,
        PixelFormat::R16G16B16,
        PixelFormat::R16G16B16A16,
        PixelFormat::R32G32B32FLOAT,
        PixelFormat::R32G32B32A32FLOAT,
    ] {
        assert_eq!(to_rgba8(f, &vec![1, 2, 3, 4]), Err(ModelError::UnsupportedImageFormat(f)));
    }
}

#[test]
fn colour_textures_are_srgb() {
    assert_eq!(texture_color_space(ModelTextureType::BaseColor), TextureColorSpace::Srgb);
    assert_eq!(texture_color_space(ModelTextureType::Emissive), TextureColorSpace::Srgb);
    assert_eq!(texture_color_space(ModelTextureType::MetallicRoughness), TextureColorSpace::Linear);
    assert_eq!(texture_color_space(ModelTextureType::Normal), TextureColorSpace::Linear);
}

#[test]
fn texture_slots_encode_missing_textures() {
    assert_eq!(texture_slot(None), NO_TEXTURE);
    assert_eq!(texture_slot(Some(7)), 7);
    let m = MaterialTextures::from_image_sources(Some(1), None, Some(2), None);
    assert_eq!(m, mat(1, NO_TEXTURE, 2, NO_TEXTURE));
}

#[test]
fn unique_images_are_the_referenced_ones_once() {
    let mats = vec![mat(0, 1, NO_TEXTURE, NO_TEXTURE), mat(1, 2, NO_TEXTURE, 0), mat(NO_TEXTURE, NO_TEXTURE, NO_TEXTURE, NO_TEXTURE)];
    let mut images = unique_image_indices(&mats);
    images.sort();
    assert_eq!(images, vec![0, 1, 2]);
    assert!(unique_image_indices(&vec![]).is_empty());
}

#[test]
fn texture_use_comes_from_first_material_using_the_image() {
    let mats = vec![mat(0, 3, 1, NO_TEXTURE), mat(1, 2, NO_TEXTURE, 0)];
    assert_eq!(texture_type_of(&mats, 0), Some(ModelTextureType::BaseColor));
    assert_eq!(texture_type_of(&mats, 1), Some(ModelTextureType::Emissive));
    assert_eq!(texture_type_of(&mats, 3), Some(ModelTextureType::MetallicRoughness));
    assert_eq!(texture_type_of(&mats, 2), Some(ModelTextureType::MetallicRoughness));
    assert_eq!(texture_type_of(&mats, 9), None);
    let n = vec![mat(NO_TEXTURE, NO_TEXTURE, NO_TEXTURE, 4)];
    assert_eq!(texture_type_of(&n, 4), Some(ModelTextureType::Normal));
    assert_eq!(
        image_texture_types(&mats, &vec![2, 0, 1]),
        vec![ModelTextureType::MetallicRoughness, ModelTextureType::BaseColor, ModelTextureType::Emissive]
    );
}

#[test]
fn remap_renumbers_by_load_order() {
    let mats = vec![mat(5, NO_TEXTURE, 9, NO_TEXTURE), mat(9, 5, NO_TEXTURE, 7)];
    let images = vec![7, 9, 5];
    let out = remap_materials(&mats, &images);
    assert_eq!(out, vec![mat(2, NO_TEXTURE, 1, NO_TEXTURE), mat(1, 2, NO_TEXTURE, 0)]);
}

#[test]
fn remap_with_unique_images_points_back_to_the_same_image() {
    let mats = vec![mat(4, 4, 8, NO_TEXTURE), mat(8, NO_TEXTURE, 4, 6)];
    let images = unique_image_indices(&mats);
    let out = remap_materials(&mats, &images);
    for (m, r) in mats.iter().zip(out.iter()) {
        for (a, b) in [
            (m.base_color_texture, r.base_color_texture),
            (m.metallic_roughness_texture, r.metallic_roughness_texture),
            (m.emissive_texture, r.emissive_texture),
            (m.normal_texture, r.normal_texture),
        ] {
            if a == NO_TEXTURE {
                assert_eq!(b, NO_TEXTURE);
            } else {
                assert_eq!(images[b as usize], a);
            }
        }
    }
}

#[test]
fn append_primitive_shifts_and_tags_triangles() {
    let mut lists = TriangleLists::new();
    lists.append_primitive(0, &vec![0, 1, 2], 0, false);
    lists.append_primitive(3, &vec![0, 1, 2, 2, 1, 0, 1], 4, true);
    assert_eq!(lists.indices, vec![0, 1, 2, 3, 4, 5, 5, 4, 3, 4]);
    assert_eq!(lists.emissive_triangles, vec![1, 2]);
    assert_eq!(lists.triangles_material, vec![0, 4, 4]);
}

#[test]
fn fill_defaults_completes_lists() {
    let mut lists = TriangleLists::new();
    lists.fill_defaults(6);
    assert_eq!(lists.indices, vec![0, 1, 2, 3, 4, 5]);
    assert_eq!(lists.emissive_triangles, vec![NO_INDEX]);
    assert_eq!(lists.triangles_material, vec![NO_INDEX, NO_INDEX]);

    let mut kept = TriangleLists::new();
    kept.append_primitive(0, &vec![2, 1, 0, 0, 1, 2], 3, true);
    kept.triangles_material.truncate(1);
    kept.fill_defaults(3);
    assert_eq!(kept.indices, vec![2, 1, 0, 0, 1, 2]);
    assert_eq!(kept.emissive_triangles, vec![0, 1]);
    assert_eq!(kept.triangles_material, vec![3, NO_INDEX]);
}

#[test]
fn primitive_fits_tests_the_append_condition() {
    let lists = TriangleLists::new();
    assert!(lists.primitive_fits(3, &vec![0, 1, 2]));
    assert!(!lists.primitive_fits(3, &vec![0, u32::MAX - 2, 2]));
    assert!(lists.primitive_fits(3, &vec![0, u32::MAX - 3, 2]));
    assert!(!lists.primitive_fits(u32::MAX as usize + 1, &vec![]));
}

#[test]
fn unique_images_never_hold_the_missing_texture() {
    let mats = vec![mat(NO_TEXTURE, 3, NO_TEXTURE, NO_TEXTURE)];
    let images = unique_image_indices(&mats);
    assert_eq!(images, vec![3]);
    assert!(!images.contains(&NO_TEXTURE));
}
