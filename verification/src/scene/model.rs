use std::collections::HashMap;
use std::collections::HashSet;
use vstd::prelude::*;
use vstd::set_lib::set_int_range;

verus! {

/// What a texture of a model is used for.
#[derive(Debug, Clone, Copy, PartialEq, Eq, Structural)]
pub enum ModelTextureType {
    BaseColor,
    Emissive,
    MetallicRoughness,
    Normal,
}

/// How the 8-bit channels of a texture are read: as sRGB-encoded colour or as
/// linear data.
#[derive(Debug, Clone, Copy, PartialEq, Eq, Structural)]
pub enum TextureColorSpace {
    Srgb,
    Linear,
}

/// Colour textures (base colour, emission) are sRGB; data textures (metallic and
/// roughness, normals) are linear.
pub fn texture_color_space(ty: ModelTextureType) -> (space: TextureColorSpace)
    ensures
        space == (match ty {
            ModelTextureType::BaseColor | ModelTextureType::Emissive => TextureColorSpace::Srgb,
            ModelTextureType::MetallicRoughness | ModelTextureType::Normal => TextureColorSpace::Linear,
        }),
{
    match ty {
        ModelTextureType::BaseColor | ModelTextureType::Emissive => TextureColorSpace::Srgb,
        ModelTextureType::MetallicRoughness | ModelTextureType::Normal => TextureColorSpace::Linear,
    }
}

/// Layout of the pixels of a decoded image.
#[derive(Debug, Clone, Copy, PartialEq, Eq, Structural)]
pub enum PixelFormat {
    R8,
    R8G8,
    R8G8B8,
    R8G8B8A8,
    R16,
    R16G16,
    R16G16B16,
    R16G16B16A16,
    R32G32B32FLOAT,
    R32G32B32A32FLOAT,
}

/// Why a model could not be turned into GPU data.
#[derive(Debug, Clone, Copy, PartialEq, Eq, Structural)]
pub enum ModelError {
    /// An image has a pixel layout that cannot be expanded to 8-bit RGBA.
    UnsupportedImageFormat(PixelFormat),
}

/// `out` holds one RGBA pixel for each whole RGB pixel of `rgb`, with opaque alpha.
pub open spec fn is_rgb_expansion(rgb: Seq<u8>, out: Seq<u8>) -> bool {
    &&& out.len() == 4 * (rgb.len() / 3)
    &&& forall|px: int|
        0 <= px < rgb.len() / 3 ==> {
            &&& #[trigger] out[4 * px] == rgb[3 * px]
            &&& out[4 * px + 1] == rgb[3 * px + 1]
            &&& out[4 * px + 2] == rgb[3 * px + 2]
            &&& out[4 * px + 3] == 255
        }
}

/// `out` holds one RGBA pixel for each red value of `red`: green and blue zero,
/// alpha opaque.
pub open spec fn is_red_expansion(red: Seq<u8>, out: Seq<u8>) -> bool {
    &&& out.len() == 4 * red.len()
    &&& forall|px: int|
        0 <= px < red.len() ==> {
            &&& #[trigger] out[4 * px] == red[px]
            &&& out[4 * px + 1] == 0
            &&& out[4 * px + 2] == 0
            &&& out[4 * px + 3] == 255
        }
}

/// Expands decoded image pixels to 8-bit RGBA: RGB gains an opaque alpha (a
/// trailing partial pixel is dropped), RGBA is kept, a red channel becomes
/// `(r, 0, 0, 255)`; other layouts are refused.
pub fn to_rgba8(format: PixelFormat, pixels: &Vec<u8>) -> (rgba: Result<Vec<u8>, ModelError>)
    ensures
        match format {
            PixelFormat::R8G8B8 => rgba matches Ok(out) && is_rgb_expansion(pixels@, out@),
            PixelFormat::R8G8B8A8 => rgba matches Ok(out) && out@ == pixels@,
            PixelFormat::R8 => rgba matches Ok(out) && is_red_expansion(pixels@, out@),
            _ => rgba == Err::<Vec<u8>, ModelError>(ModelError::UnsupportedImageFormat(format)),
        },
{
    match format {
        PixelFormat::R8G8B8 => {
            let n: usize = pixels.len();
            let mut out: Vec<u8> = Vec::new();
            let mut px: usize = 0;
            while px < n / 3
                invariant
                    n == pixels@.len(),
                    px <= n / 3,
                    out@.len() == 4 * px,
                    forall|q: int|
                        0 <= q < px ==> {
                            &&& #[trigger] out@[4 * q] == pixels@[3 * q]
                            &&& out@[4 * q + 1] == pixels@[3 * q + 1]
                            &&& out@[4 * q + 2] == pixels@[3 * q + 2]
                            &&& out@[4 * q + 3] == 255
                        },
                decreases n / 3 - px,
            {
                let base: usize = 3 * px;
                let ghost before = out@;
                out.push(pixels[base]);
                out.push(pixels[base + 1]);
                out.push(pixels[base + 2]);
                out.push(255);
                proof {
                    assert forall|q: int| 0 <= q < px + 1 implies {
                        &&& #[trigger] out@[4 * q] == pixels@[3 * q]
                        &&& out@[4 * q + 1] == pixels@[3 * q + 1]
                        &&& out@[4 * q + 2] == pixels@[3 * q + 2]
                        &&& out@[4 * q + 3] == 255
                    } by {
                        if q < px {
                            assert(before[4 * q] == pixels@[3 * q]);
                        }
                    }
                }
                px += 1;
            }
            Ok(out)
        },
        PixelFormat::R8G8B8A8 => Ok(pixels.clone()),
        PixelFormat::R8 => {
            let n: usize = pixels.len();
            let mut out: Vec<u8> = Vec::new();
            let mut px: usize = 0;
            while px < n
                invariant
                    n == pixels@.len(),
                    px <= n,
                    out@.len() == 4 * px,
                    forall|q: int|
                        0 <= q < px ==> {
                            &&& #[trigger] out@[4 * q] == pixels@[q]
                            &&& out@[4 * q + 1] == 0
                            &&& out@[4 * q + 2] == 0
                            &&& out@[4 * q + 3] == 255
                        },
                decreases n - px,
            {
                let r: u8 = pixels[px];
                let ghost before = out@;
                out.push(r);
                out.push(0);
                out.push(0);
                out.push(255);
                proof {
                    assert forall|q: int| 0 <= q < px + 1 implies {
                        &&& #[trigger] out@[4 * q] == pixels@[q]
                        &&& out@[4 * q + 1] == 0
                        &&& out@[4 * q + 2] == 0
                        &&& out@[4 * q + 3] == 255
                    } by {
                        if q < px {
                            assert(before[4 * q] == pixels@[q]);
                        }
                    }
                }
                px += 1;
            }
            Ok(out)
        },
        _ => Err(ModelError::UnsupportedImageFormat(format)),
    }
}

/// Texture slot value meaning "no texture".
pub const NO_TEXTURE: u32 = 0xffff_ffff;

/// The texture slots of a material: for each, the index of the image it samples,
/// or `NO_TEXTURE`.
#[derive(Debug, Clone, Copy, PartialEq, Eq, Structural)]
pub struct MaterialTextures {
    pub base_color_texture: u32,
    pub metallic_roughness_texture: u32,
    pub emissive_texture: u32,
    pub normal_texture: u32,
}

/// Slot value for an optional image index: the index (as `u32`), or `NO_TEXTURE`.
pub open spec fn slot_of(source: Option<usize>) -> u32 {
    match source {
        Some(i) => i as u32,
        None => NO_TEXTURE,
    }
}

impl MaterialTextures {
    /// The slots of a material from the image index of each of its textures, if any.
    pub fn from_image_sources(
        base_color: Option<usize>,
        metallic_roughness: Option<usize>,
        emissive: Option<usize>,
        normal: Option<usize>,
    ) -> (m: Self)
        ensures
            m.base_color_texture == slot_of(base_color),
            m.metallic_roughness_texture == slot_of(metallic_roughness),
            m.emissive_texture == slot_of(emissive),
            m.normal_texture == slot_of(normal),
    {
        MaterialTextures {
            base_color_texture: texture_slot(base_color),
            metallic_roughness_texture: texture_slot(metallic_roughness),
            emissive_texture: texture_slot(emissive),
            normal_texture: texture_slot(normal),
        }
    }
}

/// Slot value for an optional image index.
pub fn texture_slot(source: Option<usize>) -> (slot: u32)
    ensures
        slot == slot_of(source),
{
    match source {
        Some(i) => i as u32,
        None => NO_TEXTURE,
    }
}

/// Material `m` samples image `img` in one of its slots.
pub open spec fn uses_image(m: MaterialTextures, img: u32) -> bool {
    &&& img != NO_TEXTURE
    &&& (m.base_color_texture == img || m.emissive_texture == img || m.metallic_roughness_texture == img
        || m.normal_texture == img)
}

/// Some material of `mats` samples image `img`.
pub open spec fn image_referenced(mats: Seq<MaterialTextures>, img: u32) -> bool {
    exists|i: int| 0 <= i < mats.len() && #[trigger] uses_image(mats[i], img)
}

/// Records `slot` in `images` (and `seen`) unless it is `NO_TEXTURE` or already there.
fn note_image(slot: u32, seen: &mut HashSet<u32>, images: &mut Vec<u32>)
    requires
        old(seen)@ == old(images)@.to_set(),
        old(images)@.no_duplicates(),
        !old(images)@.contains(NO_TEXTURE),
    ensures
        final(seen)@ == final(images)@.to_set(),
        final(images)@.no_duplicates(),
        !final(images)@.contains(NO_TEXTURE),
        forall|img: u32|
            #[trigger] final(images)@.contains(img) <==> (old(images)@.contains(img) || (img == slot && slot
                != NO_TEXTURE)),
{
    broadcast use vstd::std_specs::hash::group_hash_axioms;
    if slot != NO_TEXTURE {
        let ghost before = images@;
        if seen.insert(slot) {
            images.push(slot);
            proof {
                assert(images@ == before.push(slot));
                assert forall|img: u32| #[trigger] images@.contains(img) <==> (before.contains(img) || img
                    == slot) by {
                    if images@.contains(img) {
                        let p: int = choose|p: int| 0 <= p < images@.len() && images@[p] == img;
                        if p < before.len() {
                            assert(before[p] == img);
                        }
                    }
                    if before.contains(img) {
                        let p: int = choose|p: int| 0 <= p < before.len() && before[p] == img;
                        assert(images@[p] == img);
                    }
                    if img == slot {
                        assert(images@[before.len() as int] == img);
                    }
                }
                assert(images@.to_set() =~= seen@);
            }
        }
    }
}

/// The images that the materials sample, each once.
pub fn unique_image_indices(materials: &Vec<MaterialTextures>) -> (images: Vec<u32>)
    ensures
        images@.no_duplicates(),
        !images@.contains(NO_TEXTURE),
        images@.len() <= NO_TEXTURE,
        forall|img: u32| #[trigger] images@.contains(img) <==> image_referenced(materials@, img),
{
    let mut seen: HashSet<u32> = HashSet::new();
    let mut images: Vec<u32> = Vec::new();
    let mut i: usize = 0;
    proof {
        assert(images@.to_set() =~= seen@);
    }
    while i < materials.len()
        invariant
            i <= materials@.len(),
            seen@ == images@.to_set(),
            images@.no_duplicates(),
            !images@.contains(NO_TEXTURE),
            forall|img: u32|
                #[trigger] images@.contains(img) <==> image_referenced(materials@.take(i as int), img),
        decreases materials@.len() - i,
    {
        let m = materials[i];
        note_image(m.base_color_texture, &mut seen, &mut images);
        note_image(m.emissive_texture, &mut seen, &mut images);
        note_image(m.metallic_roughness_texture, &mut seen, &mut images);
        note_image(m.normal_texture, &mut seen, &mut images);
        proof {
            let pre = materials@.take(i as int);
            let post = materials@.take(i + 1);
            assert forall|img: u32| #[trigger] images@.contains(img) <==> image_referenced(post, img) by {
                if image_referenced(post, img) {
                    let j: int = choose|j: int| 0 <= j < post.len() && #[trigger] uses_image(post[j], img);
                    if j < i {
                        assert(pre[j] == post[j]);
                        assert(image_referenced(pre, img));
                    }
                }
                if image_referenced(pre, img) {
                    let j: int = choose|j: int| 0 <= j < pre.len() && #[trigger] uses_image(pre[j], img);
                    assert(post[j] == pre[j]);
                }
                if images@.contains(img) && !image_referenced(pre, img) {
                    assert(uses_image(post[i as int], img));
                }
            }
        }
        i += 1;
    }
    proof {
        assert(materials@.take(i as int) =~= materials@);
        lemma_distinct_images_fit(images@);
    }
    images
}

/// Distinct image indices other than `NO_TEXTURE` number at most `NO_TEXTURE`.
proof fn lemma_distinct_images_fit(images: Seq<u32>)
    requires
        images.no_duplicates(),
        !images.contains(NO_TEXTURE),
    ensures
        images.len() <= NO_TEXTURE,
{
    let ints = images.map_values(|x: u32| x as int);
    assert forall|a: int, b: int| 0 <= a < ints.len() && 0 <= b < ints.len() && a != b implies ints[a]
        != ints[b] by {
        assert(images[a] != images[b]);
    }
    assert(ints.no_duplicates());
    ints.unique_seq_to_set();
    assert forall|x: int| #[trigger] ints.to_set().contains(x) implies set_int_range(0, NO_TEXTURE as int).contains(
        x,
    ) by {
        let q: int = choose|q: int| 0 <= q < ints.len() && ints[q] == x;
        assert(images[q] != NO_TEXTURE);
    }
    vstd::set_lib::lemma_int_range(0, NO_TEXTURE as int);
    vstd::set_lib::lemma_len_subset(ints.to_set(), set_int_range(0, NO_TEXTURE as int));
}

/// The use material `m` makes of image `img`, its first slot in the order base
/// colour, emission, metallic-roughness, normal that holds it.
pub open spec fn slot_type(m: MaterialTextures, img: u32) -> Option<ModelTextureType> {
    if m.base_color_texture == img {
        Some(ModelTextureType::BaseColor)
    } else if m.emissive_texture == img {
        Some(ModelTextureType::Emissive)
    } else if m.metallic_roughness_texture == img {
        Some(ModelTextureType::MetallicRoughness)
    } else if m.normal_texture == img {
        Some(ModelTextureType::Normal)
    } else {
        None
    }
}

/// The use of image `img` by the first material of `mats` that samples it.
pub open spec fn first_texture_type(mats: Seq<MaterialTextures>, img: u32) -> Option<ModelTextureType>
    decreases mats.len(),
{
    if mats.len() == 0 {
        None
    } else {
        match slot_type(mats[0], img) {
            Some(t) => Some(t),
            None => first_texture_type(mats.drop_first(), img),
        }
    }
}

/// An image that some material samples has a use.
pub proof fn lemma_referenced_image_has_type(mats: Seq<MaterialTextures>, img: u32)
    requires
        image_referenced(mats, img),
    ensures
        first_texture_type(mats, img).is_some(),
    decreases mats.len(),
{
    if slot_type(mats[0], img).is_none() {
        let j: int = choose|j: int| 0 <= j < mats.len() && #[trigger] uses_image(mats[j], img);
        assert(j != 0);
        assert(mats.drop_first()[j - 1] == mats[j]);
        lemma_referenced_image_has_type(mats.drop_first(), img);
    }
}

/// How the model uses image `img`: as the first material that samples it does.
pub fn texture_type_of(materials: &Vec<MaterialTextures>, img: u32) -> (ty: Option<ModelTextureType>)
    ensures
        ty == first_texture_type(materials@, img),
{
    let mut i: usize = 0;
    assert(materials@.skip(0) =~= materials@);
    while i < materials.len()
        invariant
            i <= materials@.len(),
            first_texture_type(materials@.skip(i as int), img) == first_texture_type(materials@, img),
        decreases materials@.len() - i,
    {
        let m = materials[i];
        let found = if m.base_color_texture == img {
            Some(ModelTextureType::BaseColor)
        } else if m.emissive_texture == img {
            Some(ModelTextureType::Emissive)
        } else if m.metallic_roughness_texture == img {
            Some(ModelTextureType::MetallicRoughness)
        } else if m.normal_texture == img {
            Some(ModelTextureType::Normal)
        } else {
            None
        };
        assert(materials@.skip(i as int)[0] == m);
        if found.is_some() {
            return found;
        }
        assert(materials@.skip(i as int).drop_first() =~= materials@.skip(i + 1));
        i += 1;
    }
    None
}

/// The use of each image of `images` (all sampled by some material).
pub fn image_texture_types(materials: &Vec<MaterialTextures>, images: &Vec<u32>) -> (types: Vec<
    ModelTextureType,
>)
    requires
        forall|k: int| 0 <= k < images@.len() ==> image_referenced(materials@, #[trigger] images@[k]),
    ensures
        types@.len() == images@.len(),
        forall|k: int|
            0 <= k < images@.len() ==> Some(#[trigger] types@[k]) == first_texture_type(
                materials@,
                images@[k],
            ),
{
    let mut types: Vec<ModelTextureType> = Vec::new();
    let mut k: usize = 0;
    while k < images.len()
        invariant
            k <= images@.len(),
            types@.len() == k,
            forall|q: int| 0 <= q < images@.len() ==> image_referenced(materials@, #[trigger] images@[q]),
            forall|q: int|
                0 <= q < k ==> Some(#[trigger] types@[q]) == first_texture_type(materials@, images@[q]),
        decreases images@.len() - k,
    {
        let img: u32 = images[k];
        proof {
            lemma_referenced_image_has_type(materials@, img);
        }
        let ty = texture_type_of(materials, img);
        match ty {
            Some(t) => types.push(t),
            None => {},
        }
        k += 1;
    }
    types
}

/// `new` is slot value `old` after the images were renumbered by their position
/// in `images`: `NO_TEXTURE` stays, an image becomes its position.
pub open spec fn remapped(images: Seq<u32>, old: u32, new: u32) -> bool {
    if old == NO_TEXTURE {
        new == NO_TEXTURE
    } else {
        new < images.len() && images[new as int] == old
    }
}

/// `new` is material `old` with every slot renumbered by position in `images`.
pub open spec fn material_remapped(images: Seq<u32>, old: MaterialTextures, new: MaterialTextures) -> bool {
    &&& remapped(images, old.base_color_texture, new.base_color_texture)
    &&& remapped(images, old.metallic_roughness_texture, new.metallic_roughness_texture)
    &&& remapped(images, old.emissive_texture, new.emissive_texture)
    &&& remapped(images, old.normal_texture, new.normal_texture)
}

/// Renumbers one slot with the position map built from `images`.
fn remap_slot(remap: &HashMap<u32, u32>, images: Ghost<Seq<u32>>, slot: u32) -> (new: u32)
    requires
        slot != NO_TEXTURE ==> remap@.contains_key(slot),
        forall|img: u32|
            #[trigger] remap@.contains_key(img) ==> remap@[img] < images@.len() && images@[remap@[img] as int]
                == img,
        !images@.contains(NO_TEXTURE),
    ensures
        remapped(images@, slot, new),
{
    broadcast use vstd::std_specs::hash::group_hash_axioms;
    if slot == NO_TEXTURE {
        NO_TEXTURE
    } else {
        match remap.get(&slot) {
            Some(v) => *v,
            None => NO_TEXTURE,
        }
    }
}

/// Renumbers the texture slots of the materials by the position of each image in
/// `images`, the order in which the textures are loaded.
pub fn remap_materials(materials: &Vec<MaterialTextures>, images: &Vec<u32>) -> (remapped_materials: Vec<
    MaterialTextures,
>)
    requires
        images@.no_duplicates(),
        images@.len() <= NO_TEXTURE,
        forall|img: u32| image_referenced(materials@, img) ==> #[trigger] images@.contains(img),
        !images@.contains(NO_TEXTURE),
    ensures
        remapped_materials@.len() == materials@.len(),
        forall|i: int|
            0 <= i < materials@.len() ==> material_remapped(
                images@,
                materials@[i],
                #[trigger] remapped_materials@[i],
            ),
{
    broadcast use vstd::std_specs::hash::group_hash_axioms;
    let mut remap: HashMap<u32, u32> = HashMap::new();
    let mut k: usize = 0;
    while k < images.len()
        invariant
            k <= images@.len() <= NO_TEXTURE,
            images@.no_duplicates(),
            forall|img: u32|
                #[trigger] remap@.contains_key(img) ==> remap@[img] < k && images@[remap@[img] as int] == img,
            forall|q: int| 0 <= q < k ==> #[trigger] remap@.contains_key(images@[q]),
        decreases images@.len() - k,
    {
        let old_idx: u32 = images[k];
        remap.insert(old_idx, k as u32);
        proof {
            assert forall|q: int| 0 <= q < k + 1 implies #[trigger] remap@.contains_key(images@[q]) by {}
        }
        k += 1;
    }
    let mut out: Vec<MaterialTextures> = Vec::new();
    let mut i: usize = 0;
    while i < materials.len()
        invariant
            i <= materials@.len(),
            out@.len() == i,
            !images@.contains(NO_TEXTURE),
            forall|img: u32|
                #[trigger] remap@.contains_key(img) ==> remap@[img] < images@.len() && images@[remap@[img] as int]
                    == img,
            forall|q: int| 0 <= q < images@.len() ==> #[trigger] remap@.contains_key(images@[q]),
            forall|img: u32| image_referenced(materials@, img) ==> #[trigger] images@.contains(img),
            forall|q: int|
                0 <= q < i ==> material_remapped(images@, materials@[q], #[trigger] out@[q]),
        decreases materials@.len() - i,
    {
        let m = materials[i];
        proof {
            assert forall|slot: u32|
                slot != NO_TEXTURE && (slot == m.base_color_texture || slot == m.emissive_texture || slot
                    == m.metallic_roughness_texture || slot == m.normal_texture) implies #[trigger] remap@.contains_key(
                slot,
            ) by {
                assert(uses_image(materials@[i as int], slot));
                assert(images@.contains(slot));
            }
        }
        let g = Ghost(images@);
        let new_m = MaterialTextures {
            base_color_texture: remap_slot(&remap, g, m.base_color_texture),
            metallic_roughness_texture: remap_slot(&remap, g, m.metallic_roughness_texture),
            emissive_texture: remap_slot(&remap, g, m.emissive_texture),
            normal_texture: remap_slot(&remap, g, m.normal_texture),
        };
        out.push(new_m);
        i += 1;
    }
    out
}

/// Renumbering keeps the identity of images: two slots that sampled the same image
/// sample the same texture afterwards, and slots that sampled different images
/// sample different textures.
pub proof fn lemma_remap_consistent(images: Seq<u32>, a_old: u32, a_new: u32, b_old: u32, b_new: u32)
    requires
        images.no_duplicates(),
        images.len() <= NO_TEXTURE,
        remapped(images, a_old, a_new),
        remapped(images, b_old, b_new),
    ensures
        (a_old == b_old) <==> (a_new == b_new),
{
    if a_old == b_old && a_old != NO_TEXTURE {
        assert(images[a_new as int] == images[b_new as int]);
    }
}

/// Entry of a triangle or material list meaning "none".
pub const NO_INDEX: u32 = 0xffff_ffff;

/// The integer lists of a model's triangle soup: three vertex indices per
/// triangle, the triangles that emit light, and each triangle's material.
#[derive(Debug)]
pub struct TriangleLists {
    pub indices: Vec<u32>,
    pub emissive_triangles: Vec<u32>,
    pub triangles_material: Vec<u32>,
}

/// Vertex indices `s` shifted by `offset`.
pub open spec fn offset_indices(s: Seq<u32>, offset: int) -> Seq<u32> {
    s.map_values(|i: u32| (i + offset) as u32)
}

/// The `count` consecutive triangle numbers starting at `first`.
pub open spec fn triangle_range(first: nat, count: nat) -> Seq<u32> {
    Seq::new(count, |t: int| (first + t) as u32)
}

/// `count` copies of `value`.
pub open spec fn repeated(value: u32, count: nat) -> Seq<u32> {
    Seq::new(count, |t: int| value)
}

impl TriangleLists {
    /// Empty lists.
    pub fn new() -> (lists: Self)
        ensures
            lists.indices@ == Seq::<u32>::empty(),
            lists.emissive_triangles@ == Seq::<u32>::empty(),
            lists.triangles_material@ == Seq::<u32>::empty(),
    {
        TriangleLists { indices: Vec::new(), emissive_triangles: Vec::new(), triangles_material: Vec::new() }
    }

    /// The condition under which `append_primitive` can append `prim_indices` after
    /// `vertex_base` vertices: every shifted index, and the triangle count, fits a `u32`.
    pub open spec fn spec_primitive_fits(self, vertex_base: usize, prim_indices: Seq<u32>) -> bool {
        &&& vertex_base <= u32::MAX
        &&& forall|p: int| 0 <= p < prim_indices.len() ==> #[trigger] prim_indices[p] + vertex_base <= u32::MAX
        &&& self.indices@.len() / 3 + prim_indices.len() / 3 <= u32::MAX
    }

    /// Tests the condition under which `append_primitive` can append the primitive.
    pub fn primitive_fits(&self, vertex_base: usize, prim_indices: &Vec<u32>) -> (ok: bool)
        ensures
            ok == self.spec_primitive_fits(vertex_base, prim_indices@),
    {
        if vertex_base > 0xffff_ffffusize {
            return false;
        }
        if !shifted_entries_fit(prim_indices, vertex_base as u64, false) {
            return false;
        }
        self.indices.len() / 3 + prim_indices.len() / 3 <= 0xffff_ffffusize
    }

    /// Appends one mesh primitive whose vertices were appended after the first
    /// `vertex_base` ones: its indices shifted by `vertex_base`, one material entry
    /// per whole triangle, and, if its material emits light, its triangles to the
    /// emissive list.
    pub fn append_primitive(
        &mut self,
        vertex_base: usize,
        prim_indices: &Vec<u32>,
        material_index: u32,
        emissive: bool,
    )
        requires
            vertex_base <= u32::MAX,
            forall|p: int| 0 <= p < prim_indices@.len() ==> #[trigger] prim_indices@[p] + vertex_base <= u32::MAX,
            old(self).indices@.len() / 3 + prim_indices@.len() / 3 <= u32::MAX,
        ensures
            final(self).indices@ == old(self).indices@ + offset_indices(prim_indices@, vertex_base as int),
            final(self).emissive_triangles@ == old(self).emissive_triangles@ + (if emissive {
                triangle_range(old(self).indices@.len() / 3, prim_indices@.len() / 3)
            } else {
                Seq::empty()
            }),
            final(self).triangles_material@ == old(self).triangles_material@ + repeated(
                material_index,
                prim_indices@.len() / 3,
            ),
    {
        let base_triangle: u32 = (self.indices.len() / 3) as u32;
        let triangle_count: u32 = (prim_indices.len() / 3) as u32;
        let ghost old_indices = self.indices@;
        let ghost old_emissive = self.emissive_triangles@;
        let ghost old_materials = self.triangles_material@;
        let offset: u32 = vertex_base as u32;
        let mut p: usize = 0;
        while p < prim_indices.len()
            invariant
                p <= prim_indices@.len(),
                offset == vertex_base,
                forall|q: int| 0 <= q < prim_indices@.len() ==> #[trigger] prim_indices@[q] + vertex_base <= u32::MAX,
                self.indices@ == old_indices + offset_indices(prim_indices@.take(p as int), vertex_base as int),
                self.emissive_triangles@ == old_emissive,
                self.triangles_material@ == old_materials,
            decreases prim_indices@.len() - p,
        {
            self.indices.push(prim_indices[p] + offset);
            proof {
                assert(offset_indices(prim_indices@.take(p + 1), vertex_base as int) =~= offset_indices(
                    prim_indices@.take(p as int),
                    vertex_base as int,
                ).push((prim_indices@[p as int] + offset) as u32));
            }
            p += 1;
        }
        assert(prim_indices@.take(p as int) =~= prim_indices@);
        let ghost new_indices = self.indices@;
        if emissive {
            let mut t: u32 = 0;
            while t < triangle_count
                invariant
                    t <= triangle_count,
                    triangle_count == prim_indices@.len() / 3,
                    base_triangle == old_indices.len() / 3,
                    base_triangle + triangle_count <= u32::MAX,
                    self.emissive_triangles@ == old_emissive + triangle_range(base_triangle as nat, t as nat),
                    self.triangles_material@ == old_materials,
                    self.indices@ == new_indices,
                decreases triangle_count - t,
            {
                self.emissive_triangles.push(base_triangle + t);
                proof {
                    assert(triangle_range(base_triangle as nat, (t + 1) as nat) =~= triangle_range(
                        base_triangle as nat,
                        t as nat,
                    ).push((base_triangle + t) as u32));
                }
                t += 1;
            }
        } else {
            assert(self.emissive_triangles@ =~= old_emissive + Seq::empty());
        }
        let ghost new_emissive = self.emissive_triangles@;
        let mut t: u32 = 0;
        while t < triangle_count
            invariant
                self.indices@ == new_indices,
                self.emissive_triangles@ == new_emissive,
                t <= triangle_count,
                triangle_count == prim_indices@.len() / 3,
                self.triangles_material@ == old_materials + repeated(material_index, t as nat),
            decreases triangle_count - t,
        {
            self.triangles_material.push(material_index);
            proof {
                assert(repeated(material_index, (t + 1) as nat) =~= repeated(material_index, t as nat).push(material_index));
            }
            t += 1;
        }
    }

    /// Completes the lists of a model with `vertex_count` vertices: without index
    /// list the vertices are taken in order, three per triangle; without emissive
    /// triangle the emissive list holds `NO_INDEX` alone; triangles without a
    /// material entry get `NO_INDEX`.
    pub fn fill_defaults(&mut self, vertex_count: usize)
        requires
            vertex_count <= u32::MAX,
        ensures
            final(self).indices@ == (if old(self).indices@.len() == 0 {
                Seq::new(vertex_count as nat, |i: int| i as u32)
            } else {
                old(self).indices@
            }),
            final(self).emissive_triangles@ == (if old(self).emissive_triangles@.len() == 0 {
                seq![NO_INDEX]
            } else {
                old(self).emissive_triangles@
            }),
            final(self).emissive_triangles@.len() >= 1,
            final(self).triangles_material@.len() >= final(self).indices@.len() / 3,
            final(self).triangles_material@ == (if old(self).triangles_material@.len()
                < final(self).indices@.len() / 3 {
                old(self).triangles_material@ + repeated(
                    NO_INDEX,
                    (final(self).indices@.len() / 3 - old(self).triangles_material@.len()) as nat,
                )
            } else {
                old(self).triangles_material@
            }),
    {
        let ghost old_emissive = self.emissive_triangles@;
        let ghost old_materials0 = self.triangles_material@;
        if self.indices.len() == 0 {
            let mut i: usize = 0;
            while i < vertex_count
                invariant
                    i <= vertex_count <= u32::MAX,
                    self.emissive_triangles@ == old_emissive,
                    self.triangles_material@ == old_materials0,
                    self.indices@ == Seq::new(i as nat, |k: int| k as u32),
                decreases vertex_count - i,
            {
                self.indices.push(i as u32);
                i += 1;
            }
        }
        if self.emissive_triangles.len() == 0 {
            self.emissive_triangles.push(NO_INDEX);
        }
        let needed: usize = self.indices.len() / 3;
        if self.triangles_material.len() < needed {
            let ghost old_materials = self.triangles_material@;
            let ghost fixed_indices = self.indices@;
            let ghost fixed_emissive = self.emissive_triangles@;
            let start: usize = self.triangles_material.len();
            let mut k: usize = start;
            while k < needed
                invariant
                    self.indices@ == fixed_indices,
                    self.emissive_triangles@ == fixed_emissive,
                    start <= k <= needed,
                    old_materials.len() == start,
                    self.triangles_material@ == old_materials + repeated(NO_INDEX, (k - start) as nat),
                decreases needed - k,
            {
                self.triangles_material.push(NO_INDEX);
                proof {
                    assert(repeated(NO_INDEX, (k + 1 - start) as nat) =~= repeated(NO_INDEX, (k - start) as nat).push(NO_INDEX));
                }
                k += 1;
            }
        }
    }
}

/// Tests whether every entry of `src` (but `NO_INDEX` where `skip_none` holds),
/// shifted by `offset`, fits a `u32`.
pub(crate) fn shifted_entries_fit(src: &Vec<u32>, offset: u64, skip_none: bool) -> (ok: bool)
    requires
        offset <= u32::MAX,
    ensures
        ok == forall|p: int|
            0 <= p < src@.len() && (skip_none ==> #[trigger] src@[p] != NO_INDEX) ==> src@[p] + offset
                <= u32::MAX,
{
    let mut p: usize = 0;
    while p < src.len()
        invariant
            offset <= u32::MAX,
            p <= src@.len(),
            forall|q: int|
                0 <= q < p && (skip_none ==> #[trigger] src@[q] != NO_INDEX) ==> src@[q] + offset <= u32::MAX,
        decreases src@.len() - p,
    {
        let x: u32 = src[p];
        if !(skip_none && x == NO_INDEX) && x as u64 + offset > 0xffff_ffffu64 {
            return false;
        }
        p += 1;
    }
    true
}

} // verus!
