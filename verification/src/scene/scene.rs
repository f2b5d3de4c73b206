use vstd::prelude::*;
use crate::scene::model::{offset_indices, shifted_entries_fit, TriangleLists, NO_INDEX};

verus! {

/// What the scene needs of one model to lay it out in the scene-wide lists: its
/// triangle lists, and how many vertices and materials it brings.
#[derive(Debug)]
pub struct ModelLists {
    pub lists: TriangleLists,
    pub vertex_count: usize,
    pub material_count: usize,
}

/// The scene-wide triangle lists, and the number of emissive triangles.
#[derive(Debug)]
pub struct SceneLists {
    pub indices: Vec<u32>,
    pub emissive_triangles: Vec<u32>,
    pub triangle_materials: Vec<u32>,
    pub emissive_triangles_count: u32,
}

/// Number of triangles of model `m`: whole groups of three indices.
pub open spec fn triangles_of(m: ModelLists) -> nat {
    m.lists.indices@.len() / 3
}

/// Vertices of the models before model `k`.
pub open spec fn vertex_offset(ms: Seq<ModelLists>, k: int) -> nat
    decreases k,
{
    if k <= 0 {
        0
    } else {
        vertex_offset(ms, k - 1) + ms[k - 1].vertex_count as nat
    }
}

/// Triangles of the models before model `k`.
pub open spec fn triangle_offset(ms: Seq<ModelLists>, k: int) -> nat
    decreases k,
{
    if k <= 0 {
        0
    } else {
        triangle_offset(ms, k - 1) + triangles_of(ms[k - 1])
    }
}

/// Materials of the models before model `k`.
pub open spec fn material_offset(ms: Seq<ModelLists>, k: int) -> nat
    decreases k,
{
    if k <= 0 {
        0
    } else {
        material_offset(ms, k - 1) + ms[k - 1].material_count as nat
    }
}

/// Entries `s` shifted by `offset`, except `NO_INDEX`, which stays.
pub open spec fn shift_unless_none(s: Seq<u32>, offset: int) -> Seq<u32> {
    s.map_values(|x: u32| if x == NO_INDEX { NO_INDEX } else { (x + offset) as u32 })
}

/// Vertex indices of the first `k` models, each shifted past the vertices of the
/// models before it.
pub open spec fn scene_indices(ms: Seq<ModelLists>, k: int) -> Seq<u32>
    decreases k,
{
    if k <= 0 {
        Seq::empty()
    } else {
        scene_indices(ms, k - 1) + offset_indices(ms[k - 1].lists.indices@, vertex_offset(ms, k - 1) as int)
    }
}

/// Emissive triangle lists of the first `k` models, each shifted past the
/// triangles of the models before it.
pub open spec fn scene_emissive(ms: Seq<ModelLists>, k: int) -> Seq<u32>
    decreases k,
{
    if k <= 0 {
        Seq::empty()
    } else {
        scene_emissive(ms, k - 1) + shift_unless_none(
            ms[k - 1].lists.emissive_triangles@,
            triangle_offset(ms, k - 1) as int,
        )
    }
}

/// Triangle material lists of the first `k` models, each shifted past the
/// materials of the models before it.
pub open spec fn scene_materials(ms: Seq<ModelLists>, k: int) -> Seq<u32>
    decreases k,
{
    if k <= 0 {
        Seq::empty()
    } else {
        scene_materials(ms, k - 1) + shift_unless_none(
            ms[k - 1].lists.triangles_material@,
            material_offset(ms, k - 1) as int,
        )
    }
}

/// Number of `NO_INDEX` entries of `s`.
pub open spec fn none_count(s: Seq<u32>) -> nat
    decreases s.len(),
{
    if s.len() == 0 {
        0
    } else {
        none_count(s.drop_last()) + if s.last() == NO_INDEX {
            1nat
        } else {
            0nat
        }
    }
}

/// Total length of the emissive lists of the first `k` models.
pub open spec fn emissive_total(ms: Seq<ModelLists>, k: int) -> nat
    decreases k,
{
    if k <= 0 {
        0
    } else {
        emissive_total(ms, k - 1) + ms[k - 1].lists.emissive_triangles@.len()
    }
}

/// Every shifted entry and every running total fits in a `u32`.
pub open spec fn scene_fits(ms: Seq<ModelLists>) -> bool {
    &&& vertex_offset(ms, ms.len() as int) <= u32::MAX
    &&& triangle_offset(ms, ms.len() as int) <= u32::MAX
    &&& material_offset(ms, ms.len() as int) <= u32::MAX
    &&& emissive_total(ms, ms.len() as int) <= u32::MAX
    &&& forall|k: int| 0 <= k < ms.len() ==> (#[trigger] ms[k]).lists.indices@.len() <= u32::MAX
    &&& forall|k: int, p: int|
        0 <= k < ms.len() && 0 <= p < ms[k].lists.indices@.len() ==> #[trigger] ms[k].lists.indices@[p]
            + vertex_offset(ms, k) <= u32::MAX
    &&& forall|k: int, p: int|
        0 <= k < ms.len() && 0 <= p < ms[k].lists.emissive_triangles@.len()
            && #[trigger] ms[k].lists.emissive_triangles@[p] != NO_INDEX ==> ms[k].lists.emissive_triangles@[p]
            + triangle_offset(ms, k) <= u32::MAX
    &&& forall|k: int, p: int|
        0 <= k < ms.len() && 0 <= p < ms[k].lists.triangles_material@.len()
            && #[trigger] ms[k].lists.triangles_material@[p] != NO_INDEX ==> ms[k].lists.triangles_material@[p]
            + material_offset(ms, k) <= u32::MAX
}

/// The conditions of `scene_fits` that concern model `k` alone.
pub open spec fn model_fits(ms: Seq<ModelLists>, k: int) -> bool {
    &&& ms[k].lists.indices@.len() <= u32::MAX
    &&& forall|p: int|
        0 <= p < ms[k].lists.indices@.len() ==> #[trigger] ms[k].lists.indices@[p] + vertex_offset(ms, k)
            <= u32::MAX
    &&& forall|p: int|
        0 <= p < ms[k].lists.emissive_triangles@.len() && #[trigger] ms[k].lists.emissive_triangles@[p]
            != NO_INDEX ==> ms[k].lists.emissive_triangles@[p] + triangle_offset(ms, k) <= u32::MAX
    &&& forall|p: int|
        0 <= p < ms[k].lists.triangles_material@.len() && #[trigger] ms[k].lists.triangles_material@[p]
            != NO_INDEX ==> ms[k].lists.triangles_material@[p] + material_offset(ms, k) <= u32::MAX
}

proof fn lemma_scene_fits_by_model(ms: Seq<ModelLists>)
    ensures
        scene_fits(ms) <==> {
            &&& vertex_offset(ms, ms.len() as int) <= u32::MAX
            &&& triangle_offset(ms, ms.len() as int) <= u32::MAX
            &&& material_offset(ms, ms.len() as int) <= u32::MAX
            &&& emissive_total(ms, ms.len() as int) <= u32::MAX
            &&& forall|k: int| 0 <= k < ms.len() ==> #[trigger] model_fits(ms, k)
        },
{
    if scene_fits(ms) {
        assert forall|k: int| 0 <= k < ms.len() implies #[trigger] model_fits(ms, k) by {
            assert(ms[k].lists.indices@.len() <= u32::MAX);
        }
    }
    if forall|k: int| 0 <= k < ms.len() ==> #[trigger] model_fits(ms, k) {
        assert forall|k: int| 0 <= k < ms.len() implies (#[trigger] ms[k]).lists.indices@.len() <= u32::MAX by {
            assert(model_fits(ms, k));
        }
        assert forall|k: int, p: int|
            0 <= k < ms.len() && 0 <= p < ms[k].lists.indices@.len() implies #[trigger] ms[k].lists.indices@[p]
            + vertex_offset(ms, k) <= u32::MAX by {
            assert(model_fits(ms, k));
        }
        assert forall|k: int, p: int|
            0 <= k < ms.len() && 0 <= p < ms[k].lists.emissive_triangles@.len()
                && #[trigger] ms[k].lists.emissive_triangles@[p] != NO_INDEX implies ms[k].lists.emissive_triangles@[p]
            + triangle_offset(ms, k) <= u32::MAX by {
            assert(model_fits(ms, k));
        }
        assert forall|k: int, p: int|
            0 <= k < ms.len() && 0 <= p < ms[k].lists.triangles_material@.len()
                && #[trigger] ms[k].lists.triangles_material@[p] != NO_INDEX implies ms[k].lists.triangles_material@[p]
            + material_offset(ms, k) <= u32::MAX by {
            assert(model_fits(ms, k));
        }
    }
}

/// Tests the condition under which `merge_model_lists` can lay the models out.
pub fn scene_fits_check(models: &Vec<ModelLists>) -> (ok: bool)
    ensures
        ok == scene_fits(models@),
{
    let ghost ms = models@;
    let max: u64 = 0xffff_ffff;
    let mut vertex_base: u64 = 0;
    let mut triangle_base: u64 = 0;
    let mut material_base: u64 = 0;
    let mut emissive_count: u64 = 0;
    proof {
        lemma_scene_fits_by_model(ms);
    }
    let mut k: usize = 0;
    while k < models.len()
        invariant
            ms == models@,
            max == 0xffff_ffffu64,
            k <= ms.len(),
            vertex_base == vertex_offset(ms, k as int) <= u32::MAX,
            triangle_base == triangle_offset(ms, k as int) <= u32::MAX,
            material_base == material_offset(ms, k as int) <= u32::MAX,
            emissive_count == emissive_total(ms, k as int) <= u32::MAX,
            forall|q: int| 0 <= q < k ==> #[trigger] model_fits(ms, q),
            scene_fits(ms) <==> {
                &&& vertex_offset(ms, ms.len() as int) <= u32::MAX
                &&& triangle_offset(ms, ms.len() as int) <= u32::MAX
                &&& material_offset(ms, ms.len() as int) <= u32::MAX
                &&& emissive_total(ms, ms.len() as int) <= u32::MAX
                &&& forall|q: int| 0 <= q < ms.len() ==> #[trigger] model_fits(ms, q)
            },
        decreases ms.len() - k,
    {
        let m = &models[k];
        proof {
            assert(ms[k as int] == *m);
            lemma_offsets_monotone(ms, k + 1, ms.len() as int);
        }
        if m.lists.indices.len() > 0xffff_ffffusize {
            assert(!model_fits(ms, k as int));
            return false;
        }
        if !shifted_entries_fit(&m.lists.indices, vertex_base, false) {
            assert(!model_fits(ms, k as int));
            return false;
        }
        if !shifted_entries_fit(&m.lists.emissive_triangles, triangle_base, true) {
            assert(!model_fits(ms, k as int));
            return false;
        }
        if !shifted_entries_fit(&m.lists.triangles_material, material_base, true) {
            assert(!model_fits(ms, k as int));
            return false;
        }
        assert(model_fits(ms, k as int));
        if m.vertex_count as u64 > max - vertex_base {
            return false;
        }
        let triangles: u64 = (m.lists.indices.len() / 3) as u64;
        if triangles > max - triangle_base {
            return false;
        }
        if m.material_count as u64 > max - material_base {
            return false;
        }
        if m.lists.emissive_triangles.len() as u64 > max - emissive_count {
            return false;
        }
        vertex_base = vertex_base + m.vertex_count as u64;
        triangle_base = triangle_base + triangles;
        material_base = material_base + m.material_count as u64;
        emissive_count = emissive_count + m.lists.emissive_triangles.len() as u64;
        k += 1;
    }
    true
}

proof fn lemma_offsets_monotone(ms: Seq<ModelLists>, j: int, k: int)
    requires
        0 <= j <= k,
    ensures
        vertex_offset(ms, j) <= vertex_offset(ms, k),
        triangle_offset(ms, j) <= triangle_offset(ms, k),
        material_offset(ms, j) <= material_offset(ms, k),
        emissive_total(ms, j) <= emissive_total(ms, k),
    decreases k - j,
{
    if j < k {
        lemma_offsets_monotone(ms, j, k - 1);
    }
}

/// Appends `src` shifted by `offset` (`NO_INDEX` kept) to `dst`.
fn append_shifted(dst: &mut Vec<u32>, src: &Vec<u32>, offset: u32)
    requires
        forall|p: int|
            0 <= p < src@.len() && #[trigger] src@[p] != NO_INDEX ==> src@[p] + offset <= u32::MAX,
    ensures
        final(dst)@ == old(dst)@ + shift_unless_none(src@, offset as int),
{
    let ghost start = dst@;
    let mut p: usize = 0;
    while p < src.len()
        invariant
            p <= src@.len(),
            forall|q: int|
                0 <= q < src@.len() && #[trigger] src@[q] != NO_INDEX ==> src@[q] + offset <= u32::MAX,
            dst@ == start + shift_unless_none(src@.take(p as int), offset as int),
        decreases src@.len() - p,
    {
        let x: u32 = src[p];
        let y: u32 = if x == NO_INDEX { NO_INDEX } else { x + offset };
        dst.push(y);
        proof {
            assert(shift_unless_none(src@.take(p + 1), offset as int) =~= shift_unless_none(
                src@.take(p as int),
                offset as int,
            ).push(y));
        }
        p += 1;
    }
    assert(src@.take(p as int) =~= src@);
}

/// Appends `src` shifted by `offset` to `dst`.
fn append_offset(dst: &mut Vec<u32>, src: &Vec<u32>, offset: u32)
    requires
        forall|p: int| 0 <= p < src@.len() ==> #[trigger] src@[p] + offset <= u32::MAX,
    ensures
        final(dst)@ == old(dst)@ + offset_indices(src@, offset as int),
{
    let ghost start = dst@;
    let mut p: usize = 0;
    while p < src.len()
        invariant
            p <= src@.len(),
            forall|q: int| 0 <= q < src@.len() ==> #[trigger] src@[q] + offset <= u32::MAX,
            dst@ == start + offset_indices(src@.take(p as int), offset as int),
        decreases src@.len() - p,
    {
        let y: u32 = src[p] + offset;
        dst.push(y);
        proof {
            assert(offset_indices(src@.take(p + 1), offset as int) =~= offset_indices(
                src@.take(p as int),
                offset as int,
            ).push(y));
        }
        p += 1;
    }
    assert(src@.take(p as int) =~= src@);
}

/// Counts the entries of `s` that are not `NO_INDEX`.
pub fn count_present(s: &Vec<u32>) -> (count: u32)
    requires
        s@.len() <= u32::MAX,
    ensures
        count == s@.len() - none_count(s@),
{
    let mut count: u32 = s.len() as u32;
    let mut p: usize = 0;
    while p < s.len()
        invariant
            p <= s@.len() <= u32::MAX,
            count == s@.len() - none_count(s@.take(p as int)),
            none_count(s@.take(p as int)) <= p,
        decreases s@.len() - p,
    {
        assert(s@.take(p + 1).drop_last() =~= s@.take(p as int));
        if s[p] == NO_INDEX {
            count -= 1;
        }
        p += 1;
    }
    assert(s@.take(p as int) =~= s@);
    count
}

/// Lays the models out one after the other in scene-wide lists: each model's
/// vertex indices shift past the vertices of the models before it, its emissive
/// triangles past their triangles and its material entries past their materials
/// (`NO_INDEX` entries stay `NO_INDEX`). Also counts the emissive triangles.
pub fn merge_model_lists(models: &Vec<ModelLists>) -> (scene: SceneLists)
    requires
        scene_fits(models@),
    ensures
        scene.indices@ == scene_indices(models@, models@.len() as int),
        scene.emissive_triangles@ == scene_emissive(models@, models@.len() as int),
        scene.triangle_materials@ == scene_materials(models@, models@.len() as int),
        scene.emissive_triangles_count == scene.emissive_triangles@.len() - none_count(
            scene.emissive_triangles@,
        ),
        scene.indices@.len() == index_total(models@, models@.len() as int),
        scene.emissive_triangles@.len() == emissive_total(models@, models@.len() as int),
        scene.triangle_materials@.len() == material_entry_total(models@, models@.len() as int),
        forall|k: int, p: int|
            0 <= k < models@.len() && 0 <= p < models@[k].lists.indices@.len() ==> #[trigger] scene.indices@[index_total(
                models@,
                k,
            ) + p] == (models@[k].lists.indices@[p] + vertex_offset(models@, k)) as u32,
        forall|k: int, p: int|
            0 <= k < models@.len() && 0 <= p < models@[k].lists.emissive_triangles@.len() ==> {
                let e: u32 = models@[k].lists.emissive_triangles@[p];
                #[trigger] scene.emissive_triangles@[emissive_total(models@, k) + p] == if e == NO_INDEX {
                    NO_INDEX
                } else {
                    (e + triangle_offset(models@, k)) as u32
                }
            },
        forall|k: int, p: int|
            0 <= k < models@.len() && 0 <= p < models@[k].lists.triangles_material@.len() ==> {
                let m: u32 = models@[k].lists.triangles_material@[p];
                #[trigger] scene.triangle_materials@[material_entry_total(models@, k) + p] == if m == NO_INDEX {
                    NO_INDEX
                } else {
                    (m + material_offset(models@, k)) as u32
                }
            },
{
    let mut indices: Vec<u32> = Vec::new();
    let mut emissive_triangles: Vec<u32> = Vec::new();
    let mut triangle_materials: Vec<u32> = Vec::new();
    let mut vertex_base: u32 = 0;
    let mut triangle_base: u32 = 0;
    let mut material_base: u32 = 0;
    let ghost ms = models@;
    let mut k: usize = 0;
    while k < models.len()
        invariant
            ms == models@,
            k <= ms.len(),
            scene_fits(ms),
            vertex_base == vertex_offset(ms, k as int),
            triangle_base == triangle_offset(ms, k as int),
            material_base == material_offset(ms, k as int),
            indices@ == scene_indices(ms, k as int),
            emissive_triangles@ == scene_emissive(ms, k as int),
            triangle_materials@ == scene_materials(ms, k as int),
            emissive_triangles@.len() == emissive_total(ms, k as int),
        decreases ms.len() - k,
    {
        let m = &models[k];
        proof {
            lemma_offsets_monotone(ms, k + 1, ms.len() as int);
            assert(ms[k as int] == *m);
        }
        append_offset(&mut indices, &m.lists.indices, vertex_base);
        append_shifted(&mut emissive_triangles, &m.lists.emissive_triangles, triangle_base);
        append_shifted(&mut triangle_materials, &m.lists.triangles_material, material_base);
        vertex_base = vertex_base + m.vertex_count as u32;
        triangle_base = triangle_base + m.lists.indices.len() as u32 / 3;
        material_base = material_base + m.material_count as u32;
        k += 1;
    }
    proof {
        lemma_offsets_monotone(ms, k as int, ms.len() as int);
        let n: int = ms.len() as int;
        lemma_scene_lengths(ms, n);
        assert forall|k: int, p: int|
            0 <= k < n && 0 <= p < ms[k].lists.indices@.len() implies #[trigger] indices@[index_total(ms, k) + p]
            == (ms[k].lists.indices@[p] + vertex_offset(ms, k)) as u32 by {
            lemma_model_indices_located(ms, k, p);
            lemma_scene_lengths(ms, k);
        }
        assert forall|k: int, p: int| 0 <= k < n && 0 <= p < ms[k].lists.emissive_triangles@.len() implies {
            let e: u32 = ms[k].lists.emissive_triangles@[p];
            #[trigger] emissive_triangles@[emissive_total(ms, k) + p] == if e == NO_INDEX {
                NO_INDEX
            } else {
                (e + triangle_offset(ms, k)) as u32
            }
        } by {
            lemma_model_emissive_located(ms, k, p);
        }
        assert forall|k: int, p: int| 0 <= k < n && 0 <= p < ms[k].lists.triangles_material@.len() implies {
            let m: u32 = ms[k].lists.triangles_material@[p];
            #[trigger] triangle_materials@[material_entry_total(ms, k) + p] == if m == NO_INDEX {
                NO_INDEX
            } else {
                (m + material_offset(ms, k)) as u32
            }
        } by {
            lemma_model_materials_located(ms, k, p);
        }
    }
    let emissive_triangles_count: u32 = count_present(&emissive_triangles);
    SceneLists { indices, emissive_triangles, triangle_materials, emissive_triangles_count }
}

/// A list made only of `NO_INDEX` counts no entry as present.
pub proof fn lemma_all_none_counts_zero(s: Seq<u32>)
    requires
        forall|i: int| 0 <= i < s.len() ==> #[trigger] s[i] == NO_INDEX,
    ensures
        none_count(s) == s.len(),
    decreases s.len(),
{
    if s.len() > 0 {
        assert forall|i: int| 0 <= i < s.drop_last().len() implies #[trigger] s.drop_last()[i] == NO_INDEX by {
            assert(s.drop_last()[i] == s[i]);
        }
        lemma_all_none_counts_zero(s.drop_last());
    }
}

/// At most every entry of a list is `NO_INDEX`.
pub proof fn lemma_none_count_bounded(s: Seq<u32>)
    ensures
        none_count(s) <= s.len(),
    decreases s.len(),
{
    if s.len() > 0 {
        lemma_none_count_bounded(s.drop_last());
    }
}

/// The lists of the first `j` models are a prefix of those of the first `k`.
proof fn lemma_scene_prefix(ms: Seq<ModelLists>, j: int, k: int)
    requires
        0 <= j <= k <= ms.len(),
    ensures
        scene_indices(ms, j).len() <= scene_indices(ms, k).len(),
        forall|q: int|
            0 <= q < scene_indices(ms, j).len() ==> #[trigger] scene_indices(ms, k)[q] == scene_indices(ms, j)[q],
    decreases k - j,
{
    if j < k {
        lemma_scene_prefix(ms, j, k - 1);
    }
}

/// Each model's vertex indices sit, shifted past the vertices of the models before
/// it, right after the indices of those models; an index that named one of the
/// model's own vertices names the same vertex among the scene's vertices, which
/// lie after those of the models before it.
pub proof fn lemma_model_indices_located(ms: Seq<ModelLists>, k: int, p: int)
    requires
        0 <= k < ms.len(),
        0 <= p < ms[k].lists.indices@.len(),
    ensures
        scene_indices(ms, ms.len() as int)[scene_indices(ms, k).len() + p] == (ms[k].lists.indices@[p]
            + vertex_offset(ms, k)) as u32,
        ms[k].lists.indices@[p] < ms[k].vertex_count ==> vertex_offset(ms, k) <= ms[k].lists.indices@[p]
            + vertex_offset(ms, k) < vertex_offset(ms, k + 1),
{
    lemma_scene_prefix(ms, k + 1, ms.len() as int);
    let q: int = scene_indices(ms, k).len() + p;
    assert(scene_indices(ms, k + 1)[q] == (ms[k].lists.indices@[p] + vertex_offset(ms, k)) as u32);
}

/// Every emissive entry of the scene that is not `NO_INDEX` is counted; when no
/// model has an emissive triangle (all entries `NO_INDEX`), the count is 0.
pub proof fn lemma_emissive_count(scene_emissive_list: Seq<u32>)
    ensures
        scene_emissive_list.len() - none_count(scene_emissive_list) >= 0,
        (forall|i: int| 0 <= i < scene_emissive_list.len() ==> #[trigger] scene_emissive_list[i] == NO_INDEX)
            ==> scene_emissive_list.len() - none_count(scene_emissive_list) == 0,
{
    lemma_none_count_bounded(scene_emissive_list);
    if forall|i: int| 0 <= i < scene_emissive_list.len() ==> #[trigger] scene_emissive_list[i] == NO_INDEX {
        lemma_all_none_counts_zero(scene_emissive_list);
    }
}

/// Vertex indices of the models before model `k`.
pub open spec fn index_total(ms: Seq<ModelLists>, k: int) -> nat
    decreases k,
{
    if k <= 0 {
        0
    } else {
        index_total(ms, k - 1) + ms[k - 1].lists.indices@.len()
    }
}

/// Triangle material entries of the models before model `k`.
pub open spec fn material_entry_total(ms: Seq<ModelLists>, k: int) -> nat
    decreases k,
{
    if k <= 0 {
        0
    } else {
        material_entry_total(ms, k - 1) + ms[k - 1].lists.triangles_material@.len()
    }
}

/// The scene-wide lists of the first `k` models are as long as their lists together.
proof fn lemma_scene_lengths(ms: Seq<ModelLists>, k: int)
    requires
        0 <= k <= ms.len(),
    ensures
        scene_indices(ms, k).len() == index_total(ms, k),
        scene_emissive(ms, k).len() == emissive_total(ms, k),
        scene_materials(ms, k).len() == material_entry_total(ms, k),
    decreases k,
{
    if k > 0 {
        lemma_scene_lengths(ms, k - 1);
    }
}

proof fn lemma_scene_lists_prefix(ms: Seq<ModelLists>, j: int, k: int)
    requires
        0 <= j <= k <= ms.len(),
    ensures
        scene_emissive(ms, j).len() <= scene_emissive(ms, k).len(),
        forall|q: int|
            0 <= q < scene_emissive(ms, j).len() ==> #[trigger] scene_emissive(ms, k)[q] == scene_emissive(ms, j)[q],
        scene_materials(ms, j).len() <= scene_materials(ms, k).len(),
        forall|q: int|
            0 <= q < scene_materials(ms, j).len() ==> #[trigger] scene_materials(ms, k)[q] == scene_materials(
                ms,
                j,
            )[q],
    decreases k - j,
{
    if j < k {
        lemma_scene_lists_prefix(ms, j, k - 1);
    }
}

/// Each model's emissive triangles sit right after those of the models before it,
/// shifted past the triangles of those models (`NO_INDEX` stays `NO_INDEX`).
pub proof fn lemma_model_emissive_located(ms: Seq<ModelLists>, k: int, p: int)
    requires
        0 <= k < ms.len(),
        0 <= p < ms[k].lists.emissive_triangles@.len(),
    ensures
        ({
            let e: u32 = ms[k].lists.emissive_triangles@[p];
            scene_emissive(ms, ms.len() as int)[emissive_total(ms, k) + p] == if e == NO_INDEX {
                NO_INDEX
            } else {
                (e + triangle_offset(ms, k)) as u32
            }
        }),
{
    lemma_scene_lists_prefix(ms, k + 1, ms.len() as int);
    lemma_scene_lengths(ms, k);
    lemma_scene_lengths(ms, k + 1);
    let q: int = emissive_total(ms, k) + p;
    assert(scene_emissive(ms, k + 1)[q] == shift_unless_none(
        ms[k].lists.emissive_triangles@,
        triangle_offset(ms, k) as int,
    )[p]);
}

/// Each model's material entries sit right after those of the models before it,
/// shifted past the materials of those models (`NO_INDEX` stays `NO_INDEX`).
pub proof fn lemma_model_materials_located(ms: Seq<ModelLists>, k: int, p: int)
    requires
        0 <= k < ms.len(),
        0 <= p < ms[k].lists.triangles_material@.len(),
    ensures
        ({
            let m: u32 = ms[k].lists.triangles_material@[p];
            scene_materials(ms, ms.len() as int)[material_entry_total(ms, k) + p] == if m == NO_INDEX {
                NO_INDEX
            } else {
                (m + material_offset(ms, k)) as u32
            }
        }),
{
    lemma_scene_lists_prefix(ms, k + 1, ms.len() as int);
    lemma_scene_lengths(ms, k);
    lemma_scene_lengths(ms, k + 1);
    let q: int = material_entry_total(ms, k) + p;
    assert(scene_materials(ms, k + 1)[q] == shift_unless_none(
        ms[k].lists.triangles_material@,
        material_offset(ms, k) as int,
    )[p]);
}

} // verus!
