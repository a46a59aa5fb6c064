use adventure::sample::{
    sample_clipmap_lod, sample_ring, sample_ring_mip, sample_ring_mip_frac, try_sample_clipmap_lod, Corners, MipLevel,
    Probe,
};
use adventure::upload::{
    bake_snapshot, bake_terrain_hifi, build_chunk_mips, build_height_clipmap, build_height_ring,
    build_height_ring_for_tier, cell_nodes, clipmap_covers_aabb, finest_covering_tier, ring_covers, ring_covers_aabb,
    ring_resident_bounds, ring_slot, terrain_query, ChunkRect, GpuHeightCell, GpuHeightNode, HeightRingCpu, RingChunk,
    TerrainQuery, HEIGHT_CHUNK_CELLS, HEIGHT_FIELD_RES, HEIGHT_NODES_PER_CHUNK, HEIGHT_RING_SLOTS,
    HEIGHT_SENTINEL_KEY, MAX_HEIGHT_MIP, MIP_NODES_PER_AXIS, MIP_NODE_OFFSET, NODES_PER_CHUNK_MIPPED,
};

type Clipmap = Vec<HeightRingCpu>;

/// A tag for a chunk that is never that of an empty slot.
fn key_of(x: i32, z: i32) -> (u32, u32) {
    ((x as i64 + 0x4000_0000) as u32, (z as i64 + 0x4000_0000) as u32)
}

fn decode(hi: u32, lo: u32) -> (i32, i32) {
    ((hi as i64 - 0x4000_0000) as i32, (lo as i64 - 0x4000_0000) as i32)
}

fn node(h: f32, dx: f32, dz: f32) -> GpuHeightNode {
    [h.to_bits(), dx.to_bits(), dz.to_bits(), 0]
}

fn lanes(n: GpuHeightNode) -> [f32; 4] {
    [f32::from_bits(n[0]), f32::from_bits(n[1]), f32::from_bits(n[2]), f32::from_bits(n[3])]
}

/// The tent filter: a quarter of each neighbour and half of the node, with a neighbour off the grid mirrored.
fn tent(l: Option<GpuHeightNode>, c: GpuHeightNode, r: Option<GpuHeightNode>) -> GpuHeightNode {
    let m = lanes(c);
    let mut out = [0u32; 4];
    for k in 0..4 {
        let a = match l {
            Some(n) => lanes(n)[k],
            None => 2.0 * m[k] - lanes(r.unwrap())[k],
        };
        let b = match r {
            Some(n) => lanes(n)[k],
            None => 2.0 * m[k] - lanes(l.unwrap())[k],
        };
        out[k] = (0.25 * a + 0.5 * m[k] + 0.25 * b).to_bits();
    }
    out
}

fn chunk(layer: u32, x: i32, z: i32) -> RingChunk {
    let (key_hi, key_lo) = key_of(x, z);
    RingChunk { layer, x, z, key_hi, key_lo, nodes: vec![node(layer as f32, 0.0, 0.0); NODES_PER_CHUNK_MIPPED as usize] }
}

fn store_with(coords: &[(i32, i32)]) -> Vec<RingChunk> {
    coords.iter().map(|&(x, z)| chunk(0, x, z)).collect()
}

fn insert_tier(store: &mut Vec<RingChunk>, tier: u32, coords: &[(i32, i32)]) {
    for &(x, z) in coords {
        store.push(chunk(tier, x, z));
    }
}

fn chunk_at(ring: &HeightRingCpu, x: f64, z: f64) -> (i32, i32) {
    let s = ring.chunk_cells as f64;
    ((x / s).floor() as i32, (z / s).floor() as i32)
}

fn covers(ring: &HeightRingCpu, x: f64, z: f64) -> bool {
    let (cx, cz) = chunk_at(ring, x, z);
    ring_covers(&ring.directory, cx, cz, key_of(cx, cz))
}

fn finest(clip: &Clipmap, x: f64, z: f64) -> Option<usize> {
    let probes = clip
        .iter()
        .map(|r| {
            let (cx, cz) = chunk_at(r, x, z);
            (cx, cz, key_of(cx, cz))
        })
        .collect();
    finest_covering_tier(clip, &probes)
}

fn rect(ring: &HeightRingCpu, min: (f64, f64), max: (f64, f64)) -> ChunkRect {
    let (x0, z0) = chunk_at(ring, min.0, min.1);
    let (x1, z1) = chunk_at(ring, max.0, max.1);
    ChunkRect { x0, x1, z0, z1 }
}

fn covers_box(ring: &HeightRingCpu, min: (f64, f64), max: (f64, f64)) -> bool {
    ring_covers_aabb(&ring.directory, rect(ring, min, max), &key_of)
}

fn clip_covers_box(clip: &Clipmap, min: (f64, f64), max: (f64, f64)) -> bool {
    clipmap_covers_aabb(clip, &clip.iter().map(|r| rect(r, min, max)).collect(), &key_of)
}

/// The point's chunk on a ring.
fn probe(ring: &HeightRingCpu, x: f64, z: f64) -> Probe {
    let (cx, cz) = chunk_at(ring, x, z);
    (cx, cz, key_of(cx, cz))
}

fn local(ring: &HeightRingCpu, x: f64, z: f64, m: u32) -> (f64, f64) {
    let s = ring.chunk_cells as f64;
    let (cx, cz) = chunk_at(ring, x, z);
    let spacing = s / ring.res as f64 * (1u32 << m) as f64;
    ((x - cx as f64 * s) / spacing, (z - cz as f64 * s) / spacing)
}

fn cell_of(ring: &HeightRingCpu, x: f64, z: f64) -> impl Fn(u32) -> (i64, i64) + '_ {
    move |m| {
        let (lx, lz) = local(ring, x, z, m);
        (lx.floor() as i64, lz.floor() as i64)
    }
}

fn blend(ring: &HeightRingCpu, x: f64, z: f64) -> impl Fn(u32, u32, u32, Corners) -> [f32; 3] + '_ {
    move |m, i, j, (n00, n10, n01, n11)| {
        let (lx, lz) = local(ring, x, z, m);
        let tx = (lx - i as f64).clamp(0.0, 1.0) as f32;
        let tz = (lz - j as f64).clamp(0.0, 1.0) as f32;
        let lerp = |p: f32, q: f32, t: f32| p + (q - p) * t;
        let (a, b, c, d) = (lanes(n00), lanes(n10), lanes(n01), lanes(n11));
        let at = |k: usize| lerp(lerp(a[k], b[k], tx), lerp(c[k], d[k], tx), tz);
        [at(0), at(1), at(2)]
    }
}

fn mix(frac: f32) -> impl Fn([f32; 3], [f32; 3]) -> [f32; 3] {
    move |a, b| {
        let lerp = |k: usize| a[k] + (b[k] - a[k]) * frac;
        [lerp(0), lerp(1), lerp(2)]
    }
}

/// The height and slopes at a point, from level `mip`.
fn sample_mip(ring: &HeightRingCpu, x: f64, z: f64, mip: u32) -> Option<[f32; 3]> {
    sample_ring_mip(ring, probe(ring, x, z), mip, &cell_of(ring, x, z), &blend(ring, x, z))
}

/// The height at a point, from level `mip`.
fn sample(ring: &HeightRingCpu, x: f64, z: f64, mip: u32) -> Option<f32> {
    sample_mip(ring, x, z, mip).map(|n| n[0])
}

fn sample_frac(ring: &HeightRingCpu, x: f64, z: f64, mip: f32) -> Option<[f32; 3]> {
    let (level, frac) = level_of(mip);
    sample_ring_mip_frac(ring, probe(ring, x, z), level, &cell_of(ring, x, z), &blend(ring, x, z), &mix(frac))
}

fn level_of(mip: f32) -> (MipLevel, f32) {
    let mip = mip.clamp(0.0, MAX_HEIGHT_MIP as f32);
    (MipLevel { below: mip.floor() as u32, whole: mip.fract() == 0.0 }, mip.fract())
}

/// The level between whole levels whose node spacing is the voxel size.
fn continuous_mip(ring: &HeightRingCpu, voxel: f32) -> f32 {
    let base = ring.chunk_cells as f32 / ring.res as f32;
    if voxel.is_nan() || voxel <= base {
        return 0.0;
    }
    (((voxel / base) as f64).log2() as f32).clamp(0.0, MAX_HEIGHT_MIP as f32)
}

fn sample_clipmap(clip: &Clipmap, x: f64, z: f64, voxel: f32) -> Option<[f32; 3]> {
    let levels: Vec<(MipLevel, f32)> = clip.iter().map(|r| level_of(continuous_mip(r, voxel))).collect();
    try_sample_clipmap_lod(
        clip,
        &clip.iter().map(|r| probe(r, x, z)).collect(),
        &levels.iter().map(|l| l.0).collect(),
        &clip.iter().map(|r| cell_of(r, x, z)).collect(),
        &clip.iter().map(|r| blend(r, x, z)).collect(),
        &levels.iter().map(|l| mix(l.1)).collect(),
    )
}

/// A rolling surface: the height and the slopes at a point.
fn surface(x: f64, z: f64) -> [f32; 3] {
    let (a, b) = (x * 0.011, z * 0.017 + 0.3);
    let h = 20.0 * a.sin() + 9.0 * b.cos();
    [h as f32, (0.22 * a.cos()) as f32, (-0.153 * b.sin()) as f32]
}

/// A chunk whose field samples the surface.
fn surface_chunk(layer: u32, cells: u32, x: i32, z: i32) -> RingChunk {
    let spacing = cells as f64 / HEIGHT_FIELD_RES as f64;
    let mut field = Vec::new();
    for j in 0..=HEIGHT_FIELD_RES {
        for i in 0..=HEIGHT_FIELD_RES {
            let at = |c: i32, k: u32| c as f64 * cells as f64 + k as f64 * spacing;
            let n = surface(at(x, i), at(z, j));
            field.push(node(n[0], n[1], n[2]));
        }
    }
    let (key_hi, key_lo) = key_of(x, z);
    RingChunk { layer, x, z, key_hi, key_lo, nodes: build_chunk_mips(&field, &tent) }
}

fn two_tier_clipmap() -> Clipmap {
    let mut store = Vec::new();
    insert_tier(&mut store, 0, &[(0, 0), (1, 0), (0, 1), (1, 1)]);
    insert_tier(&mut store, 1, &[(0, 0), (1, 0), (2, 0), (0, 1), (1, 1), (2, 1), (0, 2), (1, 2), (2, 2)]);
    build_height_clipmap(&store, &[HEIGHT_CHUNK_CELLS, HEIGHT_CHUNK_CELLS * 2])
}

fn check_cell_struct() {
    assert_eq!(std::mem::size_of::<GpuHeightCell>(), 16);
}

#[test]
fn upload_cell_struct_is_16_bytes() {
    check_cell_struct();
}

#[test]
fn tests_cell_struct_is_16_bytes() {
    check_cell_struct();
}

fn check_absent_chunk() {
    let ring = build_height_ring(&store_with(&[(0, 0)]));
    let s = HEIGHT_CHUNK_CELLS as f64;
    assert!(sample(&ring, 0.5 * s, 0.5 * s, 0).is_some());
    assert!(sample(&ring, 2.5 * s, 2.5 * s, 0).is_none());
    assert!(!covers(&ring, 8.5 * s, 0.5 * s), "a chunk that shares the slot is missed");
}

#[test]
fn upload_absent_chunk_misses() {
    check_absent_chunk();
}

#[test]
fn tests_absent_chunk_misses() {
    check_absent_chunk();
}

fn check_mip_layout() {
    assert_eq!(MAX_HEIGHT_MIP, 6);
    let mut acc = 0u32;
    for m in 0..=MAX_HEIGHT_MIP as usize {
        assert_eq!(MIP_NODES_PER_AXIS[m], (HEIGHT_FIELD_RES >> m) + 1, "npa[{m}]");
        assert_eq!(MIP_NODE_OFFSET[m], acc, "offset[{m}]");
        acc += MIP_NODES_PER_AXIS[m] * MIP_NODES_PER_AXIS[m];
    }
    assert_eq!(acc, NODES_PER_CHUNK_MIPPED);
    assert_eq!(NODES_PER_CHUNK_MIPPED, 5722);
}

#[test]
fn upload_mip_layout_constants_consistent() {
    check_mip_layout();
}

#[test]
fn tests_mip_layout_constants_consistent() {
    check_mip_layout();
}

fn check_buffer_size() {
    let ring = build_height_ring(&store_with(&[(0, 0)]));
    assert_eq!(ring.nodes.len(), HEIGHT_RING_SLOTS as usize * NODES_PER_CHUNK_MIPPED as usize);
}

#[test]
fn upload_ring_node_buffer_is_mipped_size() {
    check_buffer_size();
}

#[test]
fn tests_ring_node_buffer_is_mipped_size() {
    check_buffer_size();
}

fn check_downsample() {
    let konst = vec![node(3.5, 0.0, 0.0); HEIGHT_NODES_PER_CHUNK as usize];
    let out = build_chunk_mips(&konst, &tent);
    assert_eq!(out.len(), NODES_PER_CHUNK_MIPPED as usize);
    for m in 0..=MAX_HEIGHT_MIP as usize {
        let off = MIP_NODE_OFFSET[m] as usize;
        let n = (MIP_NODES_PER_AXIS[m] * MIP_NODES_PER_AXIS[m]) as usize;
        for k in &out[off..off + n] {
            assert!((lanes(*k)[0] - 3.5).abs() < 1e-5, "const mip {m} = {}", lanes(*k)[0]);
        }
    }

    let (a, b, c) = (0.3f64, -0.7f64, 12.0f64);
    let spacing0 = HEIGHT_CHUNK_CELLS as f64 / HEIGHT_FIELD_RES as f64;
    let mut plane = Vec::new();
    for j in 0..=HEIGHT_FIELD_RES {
        for i in 0..=HEIGHT_FIELD_RES {
            let (x, z) = (i as f64 * spacing0, j as f64 * spacing0);
            plane.push(node((a * x + b * z + c) as f32, a as f32, b as f32));
        }
    }
    let (key_hi, key_lo) = key_of(0, 0);
    let store = vec![RingChunk { layer: 0, x: 0, z: 0, key_hi, key_lo, nodes: build_chunk_mips(&plane, &tent) }];
    let ring = build_height_ring(&store);
    let base = ring.directory[ring_slot(0, 0)].node_base as usize;
    for m in 0..=MAX_HEIGHT_MIP {
        let napa = MIP_NODES_PER_AXIS[m as usize];
        let spacing = spacing0 * (1u32 << m) as f64;
        let off = base + MIP_NODE_OFFSET[m as usize] as usize;
        for jj in 0..napa {
            for ii in 0..napa {
                let expect = (a * ii as f64 * spacing + b * jj as f64 * spacing + c) as f32;
                let got = lanes(ring.nodes[off + (jj * napa + ii) as usize]);
                assert!((got[0] - expect).abs() < 1e-2, "planar mip {m} node ({ii},{jj}): {} vs {expect}", got[0]);
                assert!((got[1] - a as f32).abs() < 1e-4 && (got[2] - b as f32).abs() < 1e-4);
            }
        }
    }
    let s = HEIGHT_CHUNK_CELLS as f64;
    for &(u, v) in &[(0.21, 0.62), (0.5, 0.5)] {
        for m in 0..=MAX_HEIGHT_MIP {
            let got = sample(&ring, u * s, v * s, m).expect("resident");
            let expect = (a * u * s + b * v * s + c) as f32;
            assert!((got - expect).abs() < 1e-2, "mip {m}: {got} vs {expect}");
        }
    }
}

#[test]
fn upload_mip_downsample_constant_and_planar_exact() {
    check_downsample();
}

#[test]
fn tests_mip_downsample_constant_and_planar_exact() {
    check_downsample();
}

#[test]
fn corners_of_a_chunk_stay_at_every_level() {
    let rough = |i: u32, j: u32| ((i * 7 + j * 13) % 32) as f32;
    let mut field = Vec::new();
    for j in 0..=HEIGHT_FIELD_RES {
        for i in 0..=HEIGHT_FIELD_RES {
            field.push(node(rough(i, j), 0.0, 0.0));
        }
    }
    let out = build_chunk_mips(&field, &tent);
    for m in 0..=MAX_HEIGHT_MIP as usize {
        let last = MIP_NODES_PER_AXIS[m] - 1;
        for (i, j) in [(0, 0), (last, 0), (0, last), (last, last)] {
            let got = lanes(out[(MIP_NODE_OFFSET[m] + j * (last + 1) + i) as usize])[0];
            let expect = rough(i << m, j << m);
            assert!((got - expect).abs() < 1e-3, "level {m}, corner ({i},{j}): {got} vs {expect}");
        }
    }
}

fn check_covers_box() {
    let ring = build_height_ring(&store_with(&[(0, 0), (1, 0), (0, 1), (1, 1)]));
    let s = HEIGHT_CHUNK_CELLS as f64;
    assert!(covers_box(&ring, (0.25 * s, 0.25 * s), (1.75 * s, 1.75 * s)));
    assert!(!covers_box(&ring, (1.5 * s, 0.5 * s), (2.5 * s, 0.5 * s)));
    assert!(!covers_box(&ring, (5.0 * s, 5.0 * s), (5.5 * s, 5.5 * s)));
}

#[test]
fn upload_ring_covers_aabb_inside_and_outside() {
    check_covers_box();
}

#[test]
fn tests_ring_covers_aabb_inside_and_outside() {
    check_covers_box();
}

fn check_bounds() {
    let ring = build_height_ring(&store_with(&[(-2, 1), (3, -4), (0, 0)]));
    assert_eq!(ring_resident_bounds(&ring.directory, &decode), Some(((-2, -4), (3, 1))));
    let empty = build_height_ring(&Vec::new());
    assert_eq!(ring_resident_bounds(&empty.directory, &decode), None);
}

#[test]
fn upload_ring_resident_bounds_spans_loaded_chunks() {
    check_bounds();
}

#[test]
fn tests_ring_resident_bounds_spans_loaded_chunks() {
    check_bounds();
}

fn check_negative() {
    let ring = build_height_ring(&store_with(&[(-3, -5)]));
    let s = HEIGHT_CHUNK_CELLS as f64;
    assert!(sample(&ring, (-3.0 + 0.5) * s, (-5.0 + 0.5) * s, 0).is_some(), "negative-coord chunk must resolve");
}

#[test]
fn upload_negative_chunk_resolves() {
    check_negative();
}

#[test]
fn tests_negative_chunk_resolves() {
    check_negative();
}

fn check_tier() {
    let c1 = HEIGHT_CHUNK_CELLS * 2;
    let mut store = Vec::new();
    insert_tier(&mut store, 0, &[(0, 0)]);
    insert_tier(&mut store, 1, &[(0, 0)]);
    let ring1 = build_height_ring_for_tier(&store, 1, c1);
    assert_eq!(ring1.chunk_cells as f32, c1 as f32);
    assert_eq!(ring1.chunk_cells as f32 / ring1.res as f32, c1 as f32 / HEIGHT_FIELD_RES as f32);
    assert_eq!(ring_resident_bounds(&ring1.directory, &decode), Some(((0, 0), (0, 0))));
    assert_eq!(lanes(ring1.nodes[0])[0], 1.0, "the nodes are those of the tier's chunk");
}

#[test]
fn upload_build_tier_ring_uses_tier_chunk_size_and_filters_layer() {
    check_tier();
}

#[test]
fn tests_build_tier_ring_uses_tier_chunk_size_and_filters_layer() {
    check_tier();
}

fn check_finest() {
    let clip = two_tier_clipmap();
    let s0 = HEIGHT_CHUNK_CELLS as f64;
    assert_eq!(finest(&clip, 0.5 * s0, 0.5 * s0), Some(0), "near point served by finest tier 0");
    assert!(!covers(&clip[0], 2.5 * s0, 2.5 * s0), "tier 0 does not cover the far point");
    assert_eq!(finest(&clip, 2.5 * s0, 2.5 * s0), Some(1), "far point served by coarse tier 1");
    assert_eq!(finest(&clip, 100.0 * s0, 0.0), None);
}

#[test]
fn upload_clipmap_samples_finest_covering_tier() {
    check_finest();
}

#[test]
fn tests_clipmap_samples_finest_covering_tier() {
    check_finest();
}

fn check_non_contiguous() {
    let mut store = Vec::new();
    let cells = [HEIGHT_CHUNK_CELLS, HEIGHT_CHUNK_CELLS << 1, HEIGHT_CHUNK_CELLS << 2];
    insert_tier(&mut store, 0, &[(0, 0), (0, 1), (1, 0), (1, 1)]);
    insert_tier(&mut store, 1, &[(0, 0), (0, 1), (1, 0), (1, 1), (-1, -1), (-1, 0)]);
    insert_tier(&mut store, 2, &[(-1, -1)]);
    let clip = build_height_clipmap(&store, &cells);
    assert!(!covers(&clip[0], 300.0, 100.0), "tier 0 doesn't reach the point");
    assert!(covers(&clip[1], 300.0, 100.0), "tier 1 covers the point");
    assert!(!covers(&clip[2], 300.0, 100.0), "tier 2 is partial");
    assert_eq!(finest(&clip, 300.0, 100.0), Some(1), "must find the covered finer tier 1");
    assert_eq!(finest(&clip, -300.0, -300.0), Some(2), "far covered only by tier 2");
    for _ in 0..2 {
        assert_eq!(finest(&clip, -300.0, -300.0), Some(2));
        assert_eq!(finest(&clip, 300.0, 100.0), Some(1));
    }
}

#[test]
fn upload_sampler_handles_non_contiguous_streaming_coverage() {
    check_non_contiguous();
}

#[test]
fn tests_sampler_handles_non_contiguous_streaming_coverage() {
    check_non_contiguous();
}

fn check_suffix() {
    let mut store = Vec::new();
    let mut cells_per_tier = Vec::new();
    for t in 0..4u32 {
        cells_per_tier.push(HEIGHT_CHUNK_CELLS << t);
        let r = 4;
        let mut coords = Vec::new();
        for cz in -r..=r {
            for cx in -r..=r {
                coords.push((cx, cz));
            }
        }
        insert_tier(&mut store, t, &coords);
    }
    let clip = build_height_clipmap(&store, &cells_per_tier);
    let c0 = HEIGHT_CHUNK_CELLS as f64;
    let mut t = -40.0;
    while t <= 40.0 {
        for &frac in &[0.0, 0.5, 0.91] {
            let (x, z) = ((t + frac) * c0, (t * 0.6 - frac) * c0);
            let first = clip.iter().position(|r| covers(r, x, z));
            assert_eq!(finest(&clip, x, z), first);
            if let Some(c) = first {
                for (ti, r) in clip.iter().enumerate().skip(c) {
                    assert!(covers(r, x, z), "tier {ti} must cover once tier {c} does, at {x},{z}");
                }
            }
        }
        t += 0.41;
    }
}

#[test]
fn upload_clipmap_coverage_is_a_contiguous_suffix() {
    check_suffix();
}

#[test]
fn tests_clipmap_coverage_is_a_contiguous_suffix() {
    check_suffix();
}

fn check_far_box() {
    let clip = two_tier_clipmap();
    let s0 = HEIGHT_CHUNK_CELLS as f64;
    let (min, max) = ((2.1 * s0, 2.1 * s0), (3.9 * s0, 3.9 * s0));
    assert!(!covers_box(&clip[0], min, max), "fine tier does not reach the far footprint");
    assert!(clip_covers_box(&clip, min, max), "coarse tier admits the far footprint");
    assert!(!clip_covers_box(&clip, (50.0 * s0, 50.0 * s0), (50.5 * s0, 50.5 * s0)), "no tier covers it");
    assert!(!clip_covers_box(&Vec::new(), min, max), "an empty clipmap covers nothing");
}

#[test]
fn upload_clipmap_covers_far_via_coarse_tier() {
    check_far_box();
}

#[test]
fn tests_clipmap_covers_far_via_coarse_tier() {
    check_far_box();
}

fn check_field_samples() {
    let store: Vec<RingChunk> =
        [(0, 0), (1, 0), (-1, -1), (3, 2)].iter().map(|&(x, z)| surface_chunk(0, HEIGHT_CHUNK_CELLS, x, z)).collect();
    let ring = build_height_ring(&store);
    let s = HEIGHT_CHUNK_CELLS as f64;
    for c in &store {
        for &(u, v) in &[(0.1, 0.2), (0.5, 0.5), (0.83, 0.27)] {
            let (x, z) = ((c.x as f64 + u) * s, (c.z as f64 + v) * s);
            let got = sample_ring(&ring, probe(&ring, x, z), &cell_of(&ring, x, z), &blend(&ring, x, z))
                .expect("resident chunk resolves");
            let (fi, fj) = ((u * 64.0).floor(), (v * 64.0).floor());
            let (tx, tz) = ((u * 64.0 - fi) as f32, (v * 64.0 - fj) as f32);
            let at = |di: usize, dj: usize, k: usize| lanes(c.nodes[(fj as usize + dj) * 65 + fi as usize + di])[k];
            for k in 0..3 {
                let lo = at(0, 0, k) + (at(1, 0, k) - at(0, 0, k)) * tx;
                let hi = at(0, 1, k) + (at(1, 1, k) - at(0, 1, k)) * tx;
                let want = lo + (hi - lo) * tz;
                assert!((got[k] - want).abs() < 1e-3, "chunk ({},{}) at ({u},{v}): {} vs {want}", c.x, c.z, got[k]);
            }
        }
    }
}

#[test]
fn upload_ring_sample_matches_field_sample() {
    check_field_samples();
}

#[test]
fn tests_ring_sample_matches_field_sample() {
    check_field_samples();
}

fn check_lod_selects_mip() {
    let ring = build_height_ring(&vec![surface_chunk(0, HEIGHT_CHUNK_CELLS, 0, 0)]);
    let s = HEIGHT_CHUNK_CELLS as f64;
    let (x, z) = (0.4 * s, 0.6 * s);
    let lod0 = sample_frac(&ring, x, z, continuous_mip(&ring, 0.0)).unwrap();
    let mip0 = sample_ring(&ring, probe(&ring, x, z), &cell_of(&ring, x, z), &blend(&ring, x, z)).unwrap();
    assert_eq!(lod0[0].to_bits(), mip0[0].to_bits());
    let lod = sample_frac(&ring, x, z, continuous_mip(&ring, 8.0)).unwrap();
    assert_eq!(lod[0].to_bits(), sample(&ring, x, z, 2).unwrap().to_bits());
    assert_eq!(sample(&ring, x, z, 9).unwrap().to_bits(), sample(&ring, x, z, 6).unwrap().to_bits());
}

#[test]
fn upload_sample_ring_lod_selects_mip() {
    check_lod_selects_mip();
}

#[test]
fn tests_sample_ring_lod_selects_mip() {
    check_lod_selects_mip();
}

fn check_frac_blends() {
    let ring = build_height_ring(&vec![surface_chunk(0, HEIGHT_CHUNK_CELLS, 0, 0)]);
    let s = HEIGHT_CHUNK_CELLS as f64;
    let (x, z) = (0.37 * s, 0.61 * s);
    for m in 0..=MAX_HEIGHT_MIP {
        let frac = sample_frac(&ring, x, z, m as f32).unwrap();
        let whole = sample_mip(&ring, x, z, m).unwrap();
        assert_eq!(frac.map(f32::to_bits), whole.map(f32::to_bits), "level {m}");
    }
    let m1 = sample_mip(&ring, x, z, 1).unwrap();
    let m2 = sample_mip(&ring, x, z, 2).unwrap();
    let mid = sample_frac(&ring, x, z, 1.5).unwrap();
    for k in 0..3 {
        assert!((mid[k] - 0.5 * (m1[k] + m2[k])).abs() < 1e-5, "midpoint lane {k}");
    }
    assert!(sample_frac(&ring, 3.0 * s, z, 1.5).is_none());
}

#[test]
fn upload_sample_ring_mip_frac_blends_bracketing_mips() {
    check_frac_blends();
}

#[test]
fn tests_sample_ring_mip_frac_blends_bracketing_mips() {
    check_frac_blends();
}

fn check_plain_walk() {
    let mut store = Vec::new();
    let mut cells = Vec::new();
    for t in 0..4u32 {
        cells.push(HEIGHT_CHUNK_CELLS << t);
        for z in -4..=4 {
            for x in -4..=4 {
                store.push(surface_chunk(t, cells[t as usize], x, z));
            }
        }
    }
    let clip = build_height_clipmap(&store, &cells);
    let c0 = HEIGHT_CHUNK_CELLS as f64;
    let mut probes = Vec::new();
    let mut t = -40.0;
    while t <= 40.0 {
        for &frac in &[0.0, 0.13, 0.5, 0.87] {
            probes.push(((t + frac) * c0, (t * 0.5 - frac) * c0));
        }
        t += 0.37;
    }
    let base = 2.0f32;
    let voxels = [0.0, base * 0.5, base, base * 2.0, base * 3.3, base * 8.0, base * 64.0];
    let mut met = [false, false];
    for &(x, z) in &probes {
        for &vs in &voxels {
            let got = sample_clipmap(&clip, x, z, vs);
            let want = clip.iter().find_map(|r| sample_frac(r, x, z, continuous_mip(r, vs)));
            assert_eq!(got.map(|n| n.map(f32::to_bits)), want.map(|n| n.map(f32::to_bits)), "({x},{z}) {vs}");
            met[got.is_some() as usize] = true;
        }
    }
    assert_eq!(met, [true, true], "the points reach past every tier");
}

#[test]
fn upload_terrain_optimized_sampler_matches_plain_finest_covering_walk() {
    check_plain_walk();
}

#[test]
fn tests_terrain_optimized_sampler_matches_plain_finest_covering_walk() {
    check_plain_walk();
}

#[test]
fn a_covered_footprint_is_never_missed() {
    let clip = two_tier_clipmap();
    let s0 = HEIGHT_CHUNK_CELLS as f64;
    assert!(clip_covers_box(&clip, (2.1 * s0, 2.1 * s0), (3.9 * s0, 3.9 * s0)));
    for &(x, z) in &[(2.1 * s0, 2.1 * s0), (3.9 * s0, 2.5 * s0), (3.0 * s0, 3.9 * s0)] {
        let n = sample_clipmap_lod(
            &clip,
            &clip.iter().map(|r| probe(r, x, z)).collect(),
            &vec![MipLevel { below: 0, whole: true }; 2],
            &clip.iter().map(|r| cell_of(r, x, z)).collect(),
            &clip.iter().map(|r| blend(r, x, z)).collect(),
            &vec![mix(0.0), mix(0.0)],
        );
        assert_eq!(n[0], 1.0, "the coarse tier answers");
    }
}

#[test]
fn slots_wrap_around_the_ring() {
    assert_eq!(ring_slot(0, 0), 0);
    assert_eq!(ring_slot(3, 2), 19);
    assert_eq!(ring_slot(-1, -1), 63);
    assert_eq!(ring_slot(11, -6), ring_slot(3, 2));
}

#[test]
fn the_last_chunk_of_a_slot_stays() {
    let ring = build_height_ring(&store_with(&[(0, 0), (8, 0)]));
    assert!(ring_covers(&ring.directory, 8, 0, key_of(8, 0)));
    assert!(!ring_covers(&ring.directory, 0, 0, key_of(0, 0)));
    let empty = GpuHeightCell::sentinel();
    assert_eq!((empty.key_hi, empty.key_lo), HEIGHT_SENTINEL_KEY);
    assert_eq!(ring.directory[5], empty);
    assert_eq!(lanes(ring.nodes[5 * 5722]), [0.0; 4]);
}

#[test]
fn cell_nodes_stay_in_the_chunk() {
    assert_eq!(cell_nodes(0, 0, 0, 0), (0, 1, 65, 66));
    assert_eq!(cell_nodes(5722, 6, 0, 0), (11440, 11441, 11442, 11443));
    assert_eq!(cell_nodes(0, 1, 31, 31), (4225 + 31 * 33 + 31, 4225 + 31 * 33 + 32, 4225 + 32 * 33 + 31, 5313));
}

#[test]
fn rendering_queries_never_fall_back() {
    assert_eq!(terrain_query(true, true, false), TerrainQuery::Sample { strict: true, normalize: false });
    assert_eq!(terrain_query(false, false, true), TerrainQuery::Sample { strict: false, normalize: true });
    assert_eq!(terrain_query(true, false, false), TerrainQuery::Uncovered);
    assert_eq!(terrain_query(false, false, false), TerrainQuery::Empty);
}

#[test]
fn a_bake_without_rings_has_no_snapshot() {
    assert!(bake_terrain_hifi(&bake_snapshot::<u8, u8>(None, [1, 2], Some(3))).is_none());
    assert!(bake_terrain_hifi(&bake_snapshot::<u8, u8>(Some(9), [1, 2], None)).is_none());
    assert_eq!(bake_terrain_hifi(&bake_snapshot(Some(9u8), [1, 2], Some(3u8))), Some((&3, [1, 2])));
}
