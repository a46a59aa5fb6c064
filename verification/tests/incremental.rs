use adventure::brickmap::{Brick, BrickKey, BRICK_EDGE, BRICK_VOXELS};
use adventure::gpu::{degenerate_aabb, halo_cells, GpuBrickAabb, GpuBrickMeta};
use adventure::incremental::commands::{
    GpuAabbCommand, GpuClassifyOut, GpuPackBatch, AABB_FLAG_FREED, AABB_FLAG_RESIDENT, NEIGHBOUR_ABSENT,
};
use adventure::incremental::snapshot::SnapshotBuffers;
use adventure::incremental::{
    dense_block_u32, index_class_words, neighbourhood_26, Classification, RepackDelta, ResidentPacker,
};
use adventure::math::IVec3;
use adventure::pack::{build_by_key, pack_one, ResidentBrick};
use adventure::palette::{
    BiomeDef, BiomeLibrary, BlockId, BlockRegistry, StrataLayer, TerrainMatId, TerrainSurfaceMaterial,
};
use adventure::paletted::decode_paletted_cell;
use adventure::patch::{pack_resident_set, EmissiveVoxel, GpuBrickPatch};
use adventure::pools::SlabArena;

type Owned = Vec<(IVec3, Brick, u32)>;
type BrickName = ([i32; 3], u32);

fn registry() -> BlockRegistry {
    let mat = |name: &str, c: [f32; 4]| TerrainSurfaceMaterial {
        name: name.into(),
        preview_color: [c[0].to_bits(), c[1].to_bits(), c[2].to_bits(), c[3].to_bits()],
        roughness: 0.9f32.to_bits(),
        emissive_radiance: [0, 0, 0],
        emits: false,
    };
    let materials = vec![mat("a", [0.1, 0.2, 0.3, 1.0]), mat("b", [0.4, 0.5, 0.6, 1.0])];
    let biomes = (0..5)
        .map(|_| BiomeDef {
            surface: TerrainMatId(0),
            strata: vec![StrataLayer { material: TerrainMatId(0), bottom: 1.0f32.to_bits() }],
            bedrock: TerrainMatId(1),
        })
        .collect();
    BlockRegistry::from_biome_library(&BiomeLibrary { materials, biomes })
}

/// A brick with a checkered pattern, so that adjacent bricks have halos with solid and empty cells.
fn patterned_brick(seed: i32) -> Brick {
    let mut v = Box::new([BlockId::air(); BRICK_VOXELS]);
    for z in 0..BRICK_EDGE {
        for y in 0..BRICK_EDGE {
            for x in 0..BRICK_EDGE {
                let s = (x + y + z + seed).rem_euclid(2);
                let idx = (x + y * BRICK_EDGE + z * BRICK_EDGE * BRICK_EDGE) as usize;
                v[idx] = if s == 0 { BlockId(1) } else { BlockId::air() };
            }
        }
    }
    Brick::from_voxels(v)
}

fn no_power(_: EmissiveVoxel) -> u32 {
    0
}

fn to_entries(owned: &[(IVec3, Brick, u32)]) -> Vec<ResidentBrick<'_>> {
    owned.iter().map(|(c, b, l)| ResidentBrick { coord: *c, brick: b, lod: *l }).collect()
}

fn sorted(mut owned: Owned) -> Owned {
    owned.sort_by_key(|(c, _, l)| (*l, c.z, c.y, c.x));
    owned
}

/// A cube of four bricks an edge: patterned, with a solid core of two bricks an edge.
fn make_set(omit: Option<IVec3>, solid_core: bool, edit: Option<(IVec3, Brick)>) -> Owned {
    let mut v = Vec::new();
    for z in 0..4 {
        for y in 0..4 {
            for x in 0..4 {
                let c = IVec3::new(x, y, z);
                if Some(c) == omit {
                    continue;
                }
                if let Some((ec, eb)) = &edit {
                    if *ec == c {
                        v.push((c, eb.clone(), 0));
                        continue;
                    }
                }
                let core = (1..=2).contains(&x) && (1..=2).contains(&y) && (1..=2).contains(&z);
                let brick = if solid_core && core { Brick::uniform(BlockId(1)) } else { patterned_brick(x + y + z) };
                v.push((c, brick, 0));
            }
        }
    }
    sorted(v)
}

/// [`make_set`] without the bricks at `x == 0`.
fn without_slab() -> Owned {
    make_set(None, true, None).into_iter().filter(|(c, _, _)| c.x > 0).collect()
}

/// A cube of three bricks an edge around a solid one.
fn ring_of_three() -> Owned {
    let mut owned = Vec::new();
    for z in 0..3 {
        for y in 0..3 {
            for x in 0..3 {
                let brick = if (x, y, z) == (1, 1, 1) {
                    Brick::uniform(BlockId(1))
                } else {
                    patterned_brick(x + 2 * y + 3 * z)
                };
                owned.push((IVec3::new(x, y, z), brick, 0u32));
            }
        }
    }
    sorted(owned)
}

fn name_of(m: &GpuBrickMeta) -> BrickName {
    ([m.voxel_origin.x, m.voxel_origin.y, m.voxel_origin.z], m.lod())
}

/// What is shown of a brick, whatever its place in the buffers.
#[derive(Clone, Debug, PartialEq)]
struct Fingerprint {
    world_min: IVec3,
    uniform: Option<u16>,
    voxels: Option<Vec<u32>>,
}

fn fingerprints(patch: &GpuBrickPatch) -> Vec<(BrickName, Fingerprint)> {
    let mut out: Vec<(BrickName, Fingerprint)> = Vec::new();
    for m in &patch.metas {
        let voxels = if m.is_uniform() {
            None
        } else {
            let off = m.dense_offset() as usize;
            let pb = m.palette_base as usize;
            let palette: Vec<u16> = patch.brick_palettes[pb..].iter().map(|&x| x as u16).collect();
            Some(
                (0..halo_cells(m.lod()))
                    .map(|i| decode_paletted_cell(&palette, m.index_bits(), &patch.voxels[off..], i) as u32)
                    .collect(),
            )
        };
        let uniform = if m.is_uniform() { Some(m.uniform_block().0) } else { None };
        out.push((name_of(m), Fingerprint { world_min: m.world_min, uniform, voxels }));
    }
    out.sort_by_key(|(n, _)| *n);
    out
}

fn assert_ab_equal(packer: &ResidentPacker, entries: &[ResidentBrick<'_>], reg: &BlockRegistry, label: &str) {
    let full = fingerprints(&pack_resident_set(entries, reg, &no_power));
    let inc = fingerprints(&packer.snapshot_patch(reg, &no_power));
    assert_eq!(inc.len(), full.len(), "{label}: the brick count differs");
    for (i, f) in inc.iter().zip(full.iter()) {
        assert_eq!(i, f, "{label}: the bytes of a brick differ");
    }
}

#[test]
fn incremental_matches_full_pack_over_camera_sequence() {
    let reg = registry();
    let mut packer = ResidentPacker::new(4096);

    let s1 = make_set(None, true, None);
    let e1 = to_entries(&s1);
    let d1 = packer.update(&e1, reg.len() as u32);
    assert!(d1.topology_changed);
    assert_ab_equal(&packer, &e1, &reg, "cold fill");

    let s2 = make_set(Some(IVec3::new(2, 2, 2)), true, None);
    let e2 = to_entries(&s2);
    let d2 = packer.update(&e2, reg.len() as u32);
    assert!(d2.topology_changed, "a drop is a topology change");
    assert!(!d2.changed.is_empty());
    assert_ab_equal(&packer, &e2, &reg, "drop interior");

    let s3 = make_set(None, true, None);
    let e3 = to_entries(&s3);
    packer.update(&e3, reg.len() as u32);
    assert_ab_equal(&packer, &e3, &reg, "add again");

    let edited = patterned_brick(99);
    let s4 = make_set(None, true, Some((IVec3::new(0, 0, 0), edited)));
    let e4 = to_entries(&s4);
    packer.mark_rewritten(&[BrickKey { coord: IVec3::new(0, 0, 0), lod: 0 }]);
    let d4 = packer.update(&e4, reg.len() as u32);
    assert!(!d4.changed.is_empty(), "an edit must patch at least the edited brick");
    assert!(!d4.topology_changed);
    assert_ab_equal(&packer, &e4, &reg, "edit boundary");

    let s5 = without_slab();
    let e5 = to_entries(&s5);
    packer.update(&e5, reg.len() as u32);
    assert_ab_equal(&packer, &e5, &reg, "drop face slab");
}

#[test]
fn snapshot_patch_matches_full_pack() {
    let reg = registry();
    let mut packer = ResidentPacker::new(4096);
    let owned = ring_of_three();
    let entries = to_entries(&owned);
    packer.update(&entries, reg.len() as u32);

    let full = pack_resident_set(&entries, &reg, &no_power);
    let snap = packer.snapshot_patch(&reg, &no_power);
    assert_eq!(snap.brick_count(), full.brick_count(), "brick count matches");
    assert_eq!(snap.palette, full.palette, "palette identical");
    assert_eq!(snap.lights.len(), full.lights.len(), "light count identical");
    assert_eq!(fingerprints(&full), fingerprints(&snap));
}

#[test]
fn edit_patches_only_local_neighbourhood() {
    let reg = registry();
    let mut packer = ResidentPacker::new(4096);
    let mut owned = Vec::new();
    for z in 0..5 {
        for y in 0..5 {
            for x in 0..5 {
                owned.push((IVec3::new(x, y, z), patterned_brick(x * 7 + y * 3 + z), 0u32));
            }
        }
    }
    let owned = sorted(owned);
    packer.update(&to_entries(&owned), reg.len() as u32);
    assert_eq!(packer.resident_count(), 125);

    let edited = patterned_brick(123);
    let mut owned2 = owned.clone();
    for (c, b, _) in owned2.iter_mut() {
        if *c == IVec3::new(2, 2, 2) {
            *b = edited.clone();
        }
    }
    packer.mark_rewritten(&[BrickKey { coord: IVec3::new(2, 2, 2), lod: 0 }]);
    let d = packer.update(&to_entries(&owned2), reg.len() as u32);
    assert!(d.changed.len() <= 27, "an edit touched {} slots", d.changed.len());
    assert!(!d.changed.is_empty());
    assert!(packer.update(&to_entries(&owned2), reg.len() as u32).is_empty(), "the mark is used up");
}

/// Buffers of fixed capacity that are patched with deltas.
struct SimBuffers {
    metas: Vec<GpuBrickMeta>,
    aabbs: Vec<GpuBrickAabb>,
    indices: Vec<u32>,
    brick_palettes: Vec<u32>,
}

impl SimBuffers {
    fn from_snapshot(s: &SnapshotBuffers) -> Self {
        Self {
            metas: s.metas.clone(),
            aabbs: s.aabbs.clone(),
            indices: s.indices.clone(),
            brick_palettes: s.brick_palettes.clone(),
        }
    }

    fn apply(&mut self, delta: &RepackDelta) {
        for cs in &delta.changed {
            self.metas[cs.slot as usize] = cs.meta;
            self.aabbs[cs.slot as usize] = cs.aabb;
            if let Some(idx) = &cs.index {
                let off = cs.index_word_offset as usize;
                self.indices[off..off + idx.len()].copy_from_slice(idx);
            }
            if let Some(pal) = &cs.palette {
                let off = cs.palette_word_offset as usize;
                self.brick_palettes[off..off + pal.len()].copy_from_slice(pal);
            }
        }
    }

    fn as_patch(&self) -> GpuBrickPatch {
        GpuBrickPatch {
            aabbs: self.aabbs.clone(),
            metas: self.metas.clone(),
            voxels: self.indices.clone(),
            brick_palettes: self.brick_palettes.clone(),
            palette: Vec::new(),
            lights: Vec::new(),
        }
    }
}

fn check_step(
    packer: &mut ResidentPacker,
    owned: &[(IVec3, Brick, u32)],
    sim: &mut SimBuffers,
    reg: &BlockRegistry,
    label: &str,
) {
    let delta = packer.update(&to_entries(owned), reg.len() as u32);
    if packer.grew() {
        *sim = SimBuffers::from_snapshot(&packer.snapshot_buffers(reg));
        return;
    }
    sim.apply(&delta);
    let fresh = packer.snapshot_buffers(reg);
    assert_eq!(sim.metas, fresh.metas, "{label}: the patched metas differ");
    assert_eq!(sim.aabbs, fresh.aabbs, "{label}: the patched boxes differ");
    let degenerate = degenerate_aabb();
    let sim_patch = sim.as_patch();
    let fresh_patch = SimBuffers::from_snapshot(&fresh).as_patch();
    for (slot, m) in fresh.metas.iter().enumerate() {
        if fresh.aabbs[slot] == degenerate || m.is_uniform() {
            continue;
        }
        let off = m.dense_offset() as usize;
        let len = index_class_words(m.index_bits());
        assert_eq!(
            &sim.indices[off..off + len],
            &fresh.indices[off..off + len],
            "{label}: the patched index block at {off} of slot {slot} differs",
        );
        let sm = &sim.metas[slot];
        for cell in 0..halo_cells(m.lod()) {
            assert_eq!(
                sim_patch.cell_block(sm, cell),
                fresh_patch.cell_block(m, cell),
                "{label}: cell {cell} of slot {slot} decodes differently",
            );
        }
    }
}

#[test]
fn delta_upload_matches_snapshot_buffers_over_sequence() {
    let reg = registry();
    let mut packer = ResidentPacker::new(4096);

    let s1 = make_set(None, true, None);
    let d1 = packer.update(&to_entries(&s1), reg.len() as u32);
    assert!(d1.topology_changed);
    let snap = packer.snapshot_buffers(&reg);
    assert_eq!(snap.brick_count, 64);
    assert_eq!(snap.metas.len(), 4096);
    let mut sim = SimBuffers::from_snapshot(&snap);
    assert_eq!(sim.metas, snap.metas);
    assert_eq!(sim.indices, snap.indices);
    assert_eq!(sim.brick_palettes, snap.brick_palettes);

    let interior = make_set(Some(IVec3::new(2, 2, 2)), true, None);
    check_step(&mut packer, &interior, &mut sim, &reg, "drop interior");
    check_step(&mut packer, &make_set(None, true, None), &mut sim, &reg, "add again");
    let edited = patterned_brick(99);
    packer.mark_rewritten(&[BrickKey { coord: IVec3::new(0, 0, 0), lod: 0 }]);
    let boundary = make_set(None, true, Some((IVec3::new(0, 0, 0), edited)));
    check_step(&mut packer, &boundary, &mut sim, &reg, "edit boundary");
    check_step(&mut packer, &without_slab(), &mut sim, &reg, "drop face slab");
}

#[test]
fn streamed_snapshot_decodes_same_logical_cells_as_r2b() {
    let reg = registry();
    let mut packer = ResidentPacker::new(4096);
    let owned = ring_of_three();
    let entries = to_entries(&owned);
    packer.update(&entries, reg.len() as u32);

    let full = pack_resident_set(&entries, &reg, &no_power);
    let snap = packer.snapshot_buffers(&reg);
    let streamed = SimBuffers::from_snapshot(&snap).as_patch();
    let degenerate = degenerate_aabb();
    let resident: Vec<GpuBrickMeta> = streamed
        .metas
        .iter()
        .zip(streamed.aabbs.iter())
        .filter(|(_, a)| **a != degenerate)
        .map(|(m, _)| *m)
        .collect();
    assert_eq!(resident.len(), full.metas.len());
    for m in &full.metas {
        let name = name_of(m);
        let s = resident.iter().find(|r| name_of(r) == name).expect("the brick is in the streamed buffers");
        assert_eq!(s.is_uniform(), m.is_uniform(), "brick {name:?}: uniform on one side only");
        if m.is_uniform() {
            assert_eq!(s.uniform_block(), m.uniform_block(), "brick {name:?}: the uniform block differs");
            continue;
        }
        assert!(s.index_bits() >= 1, "a dense brick has an index width");
        for cell in 0..halo_cells(m.lod()) {
            assert_eq!(streamed.cell_block(s, cell), full.cell_block(m, cell), "brick {name:?} cell {cell}");
        }
    }
}

#[test]
fn dropped_slot_is_quarantined_then_reused() {
    let reg = registry();
    let mut packer = ResidentPacker::new(8);
    let b = patterned_brick(0);
    let at = |xs: &[i32]| -> Vec<ResidentBrick<'_>> {
        xs.iter().map(|&x| ResidentBrick { coord: IVec3::new(x, 0, 0), brick: &b, lod: 0 }).collect()
    };
    packer.update(&at(&[0, 1, 2, 3]), reg.len() as u32);
    assert_eq!(packer.resident_count(), 4);

    let d1 = packer.update(&at(&[0, 2, 3]), reg.len() as u32);
    assert_eq!(packer.resident_count(), 3);
    assert_eq!(d1.freed.len(), 1, "one brick dropped");

    let d2 = packer.update(&at(&[0, 2, 3, 5]), reg.len() as u32);
    assert_eq!(packer.resident_count(), 4);
    assert!(d2.freed.is_empty());
    assert!(d2.changed.iter().any(|c| c.slot == 4), "slots that were never used come first");
    assert_eq!(packer.capacity(), 8);

    packer.update(&at(&[0, 2, 3, 5, 7, 9, 11]), reg.len() as u32);
    let d4 = packer.update(&at(&[0, 2, 3, 5, 7, 9, 11, 13]), reg.len() as u32);
    assert_eq!(packer.resident_count(), 8);
    assert!(d4.changed.iter().any(|c| c.slot == d1.freed[0]), "the freed slot is used again");
}

/// The number of updates, after the first snapshot, that went past the buffers.
fn drive(packer: &mut ResidentPacker, corpus: &[(IVec3, Brick)], reg: &BlockRegistry, batch: usize) -> u32 {
    let mut resident: Vec<(IVec3, Brick)> = Vec::new();
    let mut epoch_snapshotted = false;
    let mut grows = 0u32;
    let mut next = 0usize;
    while next < corpus.len() {
        let end = (next + batch).min(corpus.len());
        resident.extend_from_slice(&corpus[next..end]);
        next = end;
        let entries: Vec<ResidentBrick> =
            resident.iter().map(|(c, b)| ResidentBrick { coord: *c, brick: b, lod: 0 }).collect();
        packer.update(&entries, reg.len() as u32);
        if !epoch_snapshotted || packer.grew() {
            if epoch_snapshotted && packer.grew() {
                grows += 1;
            }
            packer.snapshot_buffers(reg);
            epoch_snapshotted = true;
        }
    }
    grows
}

#[test]
fn presized_arena_eliminates_mid_load_grows() {
    let reg = registry();
    let cap = 8192u32;
    let batch = 256usize;
    let edge = 16i32;
    let mut corpus: Vec<(IVec3, Brick)> = Vec::new();
    for z in 0..edge {
        for y in 0..edge {
            for x in 0..edge {
                corpus.push((IVec3::new(x, y, z), patterned_brick(x * 31 + y * 17 + z * 11)));
            }
        }
    }
    let before = drive(&mut ResidentPacker::new_unreserved(cap), &corpus, &reg, batch);
    let after = drive(&mut ResidentPacker::new(cap), &corpus, &reg, batch);
    assert!(before > 0, "pools sized for nothing must grow while loading");
    assert_eq!(after, 0, "pools sized for the load must not grow");
}

#[test]
fn serial_and_parallel_updates_agree() {
    let reg = registry();
    let mut a = ResidentPacker::new(256);
    let mut b = ResidentPacker::new(256);
    for owned in [make_set(None, true, None), without_slab(), make_set(Some(IVec3::new(1, 1, 1)), true, None)] {
        let entries = to_entries(&owned);
        let x = a.update(&entries, reg.len() as u32);
        let y = b.update_serial(&entries, reg.len() as u32);
        assert_eq!(format!("{x:?}"), format!("{y:?}"));
    }
}

/// Run the commands of a batch against the buffers, as a compute pass does.
fn encode(sim: &mut SimBuffers, batch: &GpuPackBatch) {
    for w in &batch.cpu_writes {
        sim.metas[w.slot as usize] = w.meta;
    }
    for c in &batch.aabb_commands {
        sim.aabbs[c.slot as usize] = if c.flag == AABB_FLAG_RESIDENT {
            GpuBrickAabb::Brick { coord: IVec3::new(c.world_min_x, c.world_min_y, c.world_min_z), lod: c.lod }
        } else {
            assert_eq!(c.flag, AABB_FLAG_FREED);
            GpuBrickAabb::Degenerate
        };
    }
    for c in &batch.commands {
        let cells = gather(&batch.cores, &batch.neighbour_indices, c.neighbour_base as usize);
        let mut ids: Vec<u32> = cells.clone();
        ids.sort();
        ids.dedup();
        let per_word = 32 / c.index_bits as usize;
        let off = c.index_word_offset as usize;
        for w in sim.indices[off..off + cells.len().div_ceil(per_word)].iter_mut() {
            *w = 0;
        }
        for (i, cell) in cells.iter().enumerate() {
            let local = ids.iter().position(|d| d == cell).unwrap() as u32;
            sim.indices[off + i / per_word] |= local << (c.index_bits as usize * (i % per_word));
        }
        let base = c.palette_word_offset as usize;
        sim.brick_palettes[base..base + ids.len()].copy_from_slice(&ids);
        sim.metas[c.slot as usize] = GpuBrickMeta::dense(
            IVec3::new(c.origin_x, c.origin_y, c.origin_z),
            c.index_word_offset,
            IVec3::new(c.world_min_x, c.world_min_y, c.world_min_z),
            c.lod,
            c.index_bits as u8,
            c.palette_word_offset,
        );
    }
}

/// The haloed cells of the brick whose neighbour table begins at `base`.
fn gather(cores: &[u32], neighbours: &[u32], base: usize) -> Vec<u32> {
    let mut cells = Vec::new();
    for z in -1..9i32 {
        for y in -1..9i32 {
            for x in -1..9i32 {
                let n = (x.div_euclid(8) + 1) + 3 * (y.div_euclid(8) + 1) + 9 * (z.div_euclid(8) + 1);
                let core = neighbours[base + n as usize];
                if core == NEIGHBOUR_ABSENT {
                    cells.push(0);
                } else {
                    let local = x.rem_euclid(8) + 8 * y.rem_euclid(8) + 64 * z.rem_euclid(8);
                    cells.push(cores[core as usize * BRICK_VOXELS + local as usize]);
                }
            }
        }
    }
    cells
}

fn check_against(sim: &SimBuffers, packer: &mut ResidentPacker, entries: &[ResidentBrick<'_>], reg: &BlockRegistry) {
    packer.repopulate_last_voxels(entries);
    let fresh = packer.snapshot_buffers(reg);
    assert_eq!(sim.metas, fresh.metas);
    assert_eq!(sim.aabbs, fresh.aabbs);
    let encoded = sim.as_patch();
    let full = pack_resident_set(entries, reg, &no_power);
    for m in &full.metas {
        let at = brick_slot(&fresh, m);
        let s = &encoded.metas[at];
        assert_eq!(s.is_uniform(), m.is_uniform());
        for cell in 0..halo_cells(m.lod()) {
            assert_eq!(encoded.cell_block(s, cell), full.cell_block(m, cell), "slot {at} cell {cell}");
        }
    }
}

fn brick_slot(s: &SnapshotBuffers, m: &GpuBrickMeta) -> usize {
    (0..s.metas.len())
        .find(|&i| s.aabbs[i] != degenerate_aabb() && name_of(&s.metas[i]) == name_of(m))
        .expect("the brick is resident")
}

#[test]
fn gpu_commands_show_what_a_full_pack_shows() {
    let reg = registry();
    let mut packer = ResidentPacker::new(256);
    packer.update(&[], reg.len() as u32);
    let mut sim = SimBuffers::from_snapshot(&packer.snapshot_buffers(&reg));
    for owned in [make_set(None, true, None), make_set(Some(IVec3::new(2, 2, 2)), true, None), without_slab()] {
        let entries = to_entries(&owned);
        let batch = packer.update_gpu(&entries, reg.len() as u32);
        assert!(batch.topology_changed);
        assert!(!packer.grew());
        encode(&mut sim, &batch);
        check_against(&sim, &mut packer, &entries, &reg);
        assert!(packer.update_gpu(&entries, reg.len() as u32).is_empty());
    }
}

/// What the classifying pass finds of the cells of a brick.
fn classify(mut ids: Vec<u32>) -> GpuClassifyOut {
    ids.sort();
    ids.dedup();
    let uniform = ids.len() == 1 && ids[0] != 0;
    GpuClassifyOut {
        is_uniform: uniform as u32,
        uniform_block: if uniform { ids[0] } else { 0 },
        palette_k: ids.len() as u32,
        index_bits: 1,
    }
}

#[test]
fn every_way_to_update_places_bricks_alike() {
    let reg = registry();
    let n = reg.len() as u32;
    let mut by_cpu = ResidentPacker::new(256);
    let mut by_commands = ResidentPacker::new(256);
    let mut by_classes = ResidentPacker::new(256);
    for owned in [make_set(None, true, None), without_slab(), make_set(Some(IVec3::new(1, 1, 1)), true, None)] {
        let entries = to_entries(&owned);
        let delta = by_cpu.update(&entries, n);
        let batch = by_commands.update_gpu(&entries, n);
        let prepared = by_classes.update_gpu_prepare(&entries, n);
        let outs: Vec<GpuClassifyOut> = prepared
            .commands
            .iter()
            .map(|c| classify(gather(&prepared.cores, &prepared.neighbour_indices, c.neighbour_base as usize)))
            .collect();
        let finished = by_classes.update_gpu_finish(&prepared, &outs);
        for b in [&batch, &finished] {
            let freed: Vec<u32> =
                b.aabb_commands.iter().filter(|c| c.flag == AABB_FLAG_FREED).map(|c| c.slot).collect();
            assert_eq!(freed, delta.freed);
        }
        let cpu = by_cpu.snapshot_buffers(&reg);
        for other in [by_commands.snapshot_buffers(&reg), by_classes.snapshot_buffers(&reg)] {
            assert_eq!(other.metas, cpu.metas);
            assert_eq!(other.aabbs, cpu.aabbs);
        }
    }
}

#[test]
fn slots_are_freed_in_the_order_of_keys() {
    let reg = registry();
    let mut packer = ResidentPacker::new(8);
    let b = patterned_brick(0);
    let at = |xs: &[i32]| -> Vec<ResidentBrick<'_>> {
        xs.iter().map(|&x| ResidentBrick { coord: IVec3::new(x, 0, 0), brick: &b, lod: 0 }).collect()
    };
    packer.update(&at(&[6, 4, 2, 0]), reg.len() as u32);
    let d = packer.update(&at(&[4]), reg.len() as u32);
    assert_eq!(d.freed, vec![3, 2, 0], "the slots of the bricks at 0, 2 and 6");
    assert!(d.topology_changed);
    for s in &d.freed {
        assert_eq!(d.changed.iter().filter(|c| c.slot == *s).count(), 1);
    }
    let same = packer.update(&at(&[4]), reg.len() as u32);
    assert!(!same.topology_changed && same.changed.is_empty() && same.freed.is_empty());
}

#[test]
fn an_edit_uploads_the_brick_itself() {
    let reg = registry();
    let mut packer = ResidentPacker::new(256);
    let owned = make_set(None, true, None);
    packer.update(&to_entries(&owned), reg.len() as u32);
    let key = BrickKey { coord: IVec3::new(1, 1, 1), lod: 0 };
    let before = packer.snapshot_buffers(&reg);
    let own = before.metas.iter().position(|m| name_of(m) == ([8, 8, 8], 0)).expect("the brick has a slot");
    let edited = make_set(None, true, Some((key.coord, Brick::uniform(BlockId(2)))));
    packer.mark_rewritten(&[key]);
    let d = packer.update(&to_entries(&edited), reg.len() as u32);
    assert!(d.changed.iter().any(|c| c.slot as usize == own));
    assert!(d.changed.len() <= 27 && d.freed.is_empty() && !d.topology_changed);
}

#[test]
fn classified_updates_show_what_a_full_pack_shows() {
    let reg = registry();
    let mut packer = ResidentPacker::new(256);
    packer.update(&[], reg.len() as u32);
    let mut sim = SimBuffers::from_snapshot(&packer.snapshot_buffers(&reg));
    for owned in [make_set(None, true, None), make_set(Some(IVec3::new(2, 2, 2)), true, None), without_slab()] {
        let entries = to_entries(&owned);
        let prepared = packer.update_gpu_prepare(&entries, reg.len() as u32);
        assert!(!prepared.is_empty());
        let outs: Vec<GpuClassifyOut> = prepared
            .commands
            .iter()
            .map(|c| classify(gather(&prepared.cores, &prepared.neighbour_indices, c.neighbour_base as usize)))
            .collect();
        let batch = packer.update_gpu_finish(&prepared, &outs);
        assert!(batch.topology_changed);
        encode(&mut sim, &batch);
        check_against(&sim, &mut packer, &entries, &reg);
    }
}

#[test]
fn classifications_agree() {
    let solid = Brick::uniform(BlockId(7));
    let mut owned: Owned = Vec::new();
    for z in -1..=1 {
        for y in -1..=1 {
            for x in -1..=1 {
                owned.push((IVec3::new(x, y, z), solid.clone(), 0));
            }
        }
    }
    let entries = to_entries(&owned);
    let by_key = build_by_key(&entries);
    match Classification::from_packed(&pack_one(&entries[13], &by_key)) {
        Classification::Uniform(b) => assert_eq!(b, BlockId(7)),
        Classification::Dense { .. } => panic!("the middle brick and its halo are one block"),
    }
    match Classification::from_packed(&pack_one(&entries[0], &by_key)) {
        Classification::Uniform(_) => panic!("the halo of a corner brick is part air"),
        Classification::Dense { palette_k } => assert_eq!(palette_k, 2),
    }
    let out = GpuClassifyOut { is_uniform: 1, uniform_block: 0x5_0007, palette_k: 0, index_bits: 0 };
    assert!(matches!(Classification::from_gpu(&out), Classification::Uniform(BlockId(7))));
    let out = GpuClassifyOut { is_uniform: 0, uniform_block: 7, palette_k: 3, index_bits: 2 };
    assert!(matches!(Classification::from_gpu(&out), Classification::Dense { palette_k: 3 }));
}

#[test]
fn box_commands_carry_the_brick() {
    let c = GpuAabbCommand::resident(5, IVec3::new(-1, 2, 3), 4);
    assert_eq!((c.slot, c.lod, c.flag), (5, 4, AABB_FLAG_RESIDENT));
    assert_eq!((c.world_min_x, c.world_min_y, c.world_min_z), (-1, 2, 3));
    assert_eq!(GpuAabbCommand::freed(9).flag, AABB_FLAG_FREED);
    assert_eq!(GpuAabbCommand::freed(9).slot, 9);
}

#[test]
fn bricks_past_the_slots_stay_out() {
    let reg = registry();
    let mut packer = ResidentPacker::new(2);
    let b = patterned_brick(1);
    let entries: Vec<ResidentBrick> =
        (0..4).map(|x| ResidentBrick { coord: IVec3::new(3 * x, 0, 0), brick: &b, lod: 0 }).collect();
    let d = packer.update(&entries, reg.len() as u32);
    assert_eq!(packer.resident_count(), 2);
    assert_eq!(d.changed.len(), 2);
}

#[test]
fn a_brick_past_the_slots_is_skipped_next_to_one_that_has_one() {
    let reg = registry();
    let mut packer = ResidentPacker::new(1);
    let b = Brick::uniform(BlockId(1));
    let entries: Vec<ResidentBrick> =
        (0..2).map(|x| ResidentBrick { coord: IVec3::new(x, 0, 0), brick: &b, lod: 0 }).collect();
    let d = packer.update(&entries, reg.len() as u32);
    assert_eq!(packer.resident_count(), 1);
    assert!(!d.changed.is_empty() && d.changed.iter().all(|c| c.slot == 0));
}

#[test]
fn block_sizes() {
    assert_eq!(dense_block_u32(), 1000);
    assert_eq!(index_class_words(1), 32);
    assert_eq!(index_class_words(2), 63);
    assert_eq!(index_class_words(4), 125);
    assert_eq!(index_class_words(8), 250);
    assert_eq!(index_class_words(16), 500);
    let near = neighbourhood_26((0, 0, 0, 3));
    assert_eq!(near.len(), 26);
    assert!(near.contains(&(-1, 1, 0, 3)));
    assert!(!near.contains(&(0, 0, 0, 3)));
}

#[test]
fn freed_blocks_are_used_again_in_their_class() {
    let mut arena = SlabArena::new(vec![4, 16]);
    let a = arena.claim_block(3);
    let b = arena.claim_block(16);
    assert_eq!((a, b), (0, 4));
    assert_eq!((arena.class_of(4), arena.class_of(5)), (0, 1));
    arena.free_block(a, 3);
    assert_eq!(arena.claim_block(10), 20, "a small block does not serve a large one");
    assert_eq!(arena.claim_block(4), 0);
}
