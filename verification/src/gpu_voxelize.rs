//! The host side of the brick voxelizer that runs on the GPU: its uniform, and the text of its shader.

use crate::gpu::halo_edge;
use crate::palette::{BiomeDef, BiomeLibrary, BlockRegistry, StrataLayer, TerrainMatId};
use crate::text::{chars_of, is_white, white};
use vstd::prelude::*;

verus! {

/// The most strata of one biome that the uniform holds, in two lanes of four.
pub const WV_STRATA_MAX: usize = 8;

/// The number of biomes.
pub const BIOME_COUNT: usize = 5;

/// One biome's strata, laid flat. `layer_bottom` holds the bit patterns of floats.
#[derive(Clone, Copy, Debug, PartialEq, Eq)]
pub struct WvBiomeColumn {
    /// The depths that the layers reach down to.
    pub layer_bottom: [u32; 8],
    /// The materials of the layers.
    pub layer_mat: [u32; 8],
    pub surface_mat: u32,
    pub bedrock_mat: u32,
    pub layer_count: u32,
    pub _pad: u32,
}

/// Whether a column has nothing in it.
pub open spec fn is_blank(c: WvBiomeColumn) -> bool {
    &&& c.layer_bottom@ == Seq::new(8, |i: int| 0u32)
    &&& c.layer_mat@ == Seq::new(8, |i: int| 0u32)
    &&& c.surface_mat == 0 && c.bedrock_mat == 0 && c.layer_count == 0 && c._pad == 0
}

/// Whether a column holds a biome's first layers, as many as there is room for, and zeros after them.
pub open spec fn is_column(c: WvBiomeColumn, def: BiomeDef) -> bool {
    let n: int = if def.strata@.len() < 8 { def.strata@.len() as int } else { 8 };
    &&& c.surface_mat == def.surface.0
    &&& c.bedrock_mat == def.bedrock.0
    &&& c.layer_count == n
    &&& c._pad == 0
    &&& c.layer_bottom@ == Seq::new(8, |i: int| if i < n { def.strata@[i].bottom } else { 0u32 })
    &&& c.layer_mat@ == Seq::new(8, |i: int| if i < n { def.strata@[i].material.0 as u32 } else { 0u32 })
}

impl Default for WvBiomeColumn {
    /// The column with nothing in it.
    fn default() -> (c: WvBiomeColumn)
        ensures
            is_blank(c),
    {
        let c = WvBiomeColumn {
            layer_bottom: [0u32; 8],
            layer_mat: [0u32; 8],
            surface_mat: 0,
            bedrock_mat: 0,
            layer_count: 0,
            _pad: 0,
        };
        assert(c.layer_bottom@ =~= Seq::new(8, |i: int| 0u32));
        assert(c.layer_mat@ =~= Seq::new(8, |i: int| 0u32));
        c
    }
}

/// Lay a biome's strata flat.
pub fn flatten_column(def: &BiomeDef) -> (c: WvBiomeColumn)
    ensures
        is_column(c, *def),
{
    let mut bottom: [u32; 8] = [0u32; 8];
    let mut mat: [u32; 8] = [0u32; 8];
    let mut n: usize = 0;
    while n < def.strata.len() && n < WV_STRATA_MAX
        invariant
            n <= def.strata@.len(),
            n <= 8,
            forall|i: int| 0 <= i < n ==> #[trigger] bottom@[i] == def.strata@[i].bottom,
            forall|i: int| n <= i < 8 ==> #[trigger] bottom@[i] == 0,
            forall|i: int| 0 <= i < n ==> #[trigger] mat@[i] == def.strata@[i].material.0,
            forall|i: int| n <= i < 8 ==> #[trigger] mat@[i] == 0,
        decreases 8 - n,
    {
        let layer: StrataLayer = def.strata[n];
        bottom[n] = layer.bottom;
        mat[n] = layer.material.0 as u32;
        n = n + 1;
    }
    let c = WvBiomeColumn {
        layer_bottom: bottom,
        layer_mat: mat,
        surface_mat: def.surface.0 as u32,
        bedrock_mat: def.bedrock.0 as u32,
        layer_count: n as u32,
        _pad: 0,
    };
    let ghost k: int = n as int;
    assert(c.layer_bottom@ =~= Seq::new(8, |i: int| if i < k { def.strata@[i].bottom } else { 0u32 }));
    assert(c.layer_mat@ =~= Seq::new(8, |i: int| if i < k { def.strata@[i].material.0 as u32 } else { 0u32 }));
    c
}

/// The climate knobs of a world. The last four are bit patterns of floats.
#[derive(Clone, Copy, Debug, PartialEq, Eq, Structural)]
pub struct ClimateGpuParams {
    pub temp_seed: u32,
    pub humid_seed: u32,
    pub octaves: u32,
    pub base_freq: u32,
    pub lacunarity: u32,
    pub gain: u32,
    pub norm_bound: u32,
}

/// Where a brick lies, as bit patterns of floats: its least corner, the edge of its cells, and the depth of
/// the surface skin, in metres.
#[derive(Clone, Copy, Debug, PartialEq, Eq)]
pub struct WvPlacement {
    pub world_min: [u32; 4],
    pub cell_size: u32,
    pub surface_skin_depth: u32,
}

/// The uniform of the voxelizer. All but the counts, the seeds and the ids are bit patterns of floats.
#[derive(Clone, Debug)]
pub struct WvParams {
    /// One column per biome.
    pub columns: [WvBiomeColumn; BIOME_COUNT],
    /// The block of each material.
    pub mat_to_block: Vec<u32>,
    pub world_min: [u32; 4],
    pub cell_size: u32,
    pub halo_edge: u32,
    pub surface_skin_depth: u32,
    pub world_seed: u32,
    pub temp_seed: u32,
    pub humid_seed: u32,
    pub climate_octaves: u32,
    /// Number of materials that have a block.
    pub mat_count: u32,
    pub climate_base_freq: u32,
    pub climate_lacunarity: u32,
    pub climate_gain: u32,
    pub climate_norm_bound: u32,
}

/// The two halves of a 64-bit seed, folded into one.
pub open spec fn folded_seed(seed: u64) -> u32 {
    ((seed % 0x1_0000_0000) as u32) ^ ((seed / 0x1_0000_0000) as u32)
}

/// Fold a 64-bit world seed into 32 bits.
pub fn world_seed_u32(world_seed: u64) -> (s: u32)
    ensures
        s == folded_seed(world_seed),
{
    proof {
        assert((world_seed as u32) == (world_seed % 0x1_0000_0000) as u32 && (world_seed >> 32u64)
            == world_seed / 0x1_0000_0000) by (bit_vector);
    }
    (world_seed as u32) ^ ((world_seed >> 32u64) as u32)
}

/// The block of material `i`, or zero from `count` on.
pub open spec fn material_block(registry: BlockRegistry, count: int, i: int) -> u32 {
    if i >= count {
        0
    } else if registry.bridge().dom().contains(i as u16) {
        registry.bridge()[i as u16].0 as u32
    } else {
        0
    }
}

/// Whether these are the parameters of a library with the blocks of a registry.
pub open spec fn is_params(
    p: WvParams,
    placement: WvPlacement,
    lib: BiomeLibrary,
    registry: BlockRegistry,
    world_seed: u64,
    climate: ClimateGpuParams,
    max_materials: u16,
) -> bool {
    &&& lib.biomes@.len() == 5 ==> forall|i: int|
        0 <= i < 5 ==> is_column(#[trigger] p.columns@[i], lib.biomes@[i])
    &&& lib.biomes@.len() != 5 ==> forall|i: int| 0 <= i < 5 ==> is_blank(#[trigger] p.columns@[i])
    &&& p.mat_count == if lib.materials@.len() < max_materials {
        lib.materials@.len() as int
    } else {
        max_materials as int
    }
    &&& p.mat_to_block@ == Seq::new(max_materials as nat, |i: int| material_block(registry, p.mat_count as int, i))
    &&& p.world_min == placement.world_min
    &&& p.cell_size == placement.cell_size
    &&& p.surface_skin_depth == placement.surface_skin_depth
    &&& p.halo_edge == 10
    &&& p.world_seed == folded_seed(world_seed)
    &&& p.temp_seed == climate.temp_seed
    &&& p.humid_seed == climate.humid_seed
    &&& p.climate_octaves == climate.octaves
    &&& p.climate_base_freq == climate.base_freq
    &&& p.climate_lacunarity == climate.lacunarity
    &&& p.climate_gain == climate.gain
    &&& p.climate_norm_bound == climate.norm_bound
}

impl WvParams {
    /// The uniform for a brick at level `lod`. A library without a column for every biome leaves all of
    /// them blank; the table of materials has room for `max_materials`.
    pub fn build(
        placement: WvPlacement,
        lod: u32,
        lib: &BiomeLibrary,
        registry: &BlockRegistry,
        world_seed: u64,
        climate: ClimateGpuParams,
        max_materials: u16,
    ) -> (p: WvParams)
        ensures
            is_params(p, placement, *lib, *registry, world_seed, climate, max_materials),
    {
        let blank: WvBiomeColumn = Default::default();
        let mut columns: [WvBiomeColumn; BIOME_COUNT] = [blank; BIOME_COUNT];
        if lib.biomes.len() == BIOME_COUNT {
            let mut slot: usize = 0;
            while slot < BIOME_COUNT
                invariant
                    slot <= 5,
                    lib.biomes@.len() == 5,
                    columns@.len() == 5,
                    forall|i: int| 0 <= i < slot ==> is_column(#[trigger] columns@[i], lib.biomes@[i]),
                decreases 5 - slot,
            {
                columns[slot] = flatten_column(&lib.biomes[slot]);
                slot = slot + 1;
            }
        }
        let count: usize = if lib.materials.len() < max_materials as usize {
            lib.materials.len()
        } else {
            max_materials as usize
        };
        let mut mat_to_block: Vec<u32> = Vec::new();
        let mut i: u16 = 0;
        while i < max_materials
            invariant
                i <= max_materials,
                count <= max_materials,
                mat_to_block@.len() == i,
                forall|k: int| 0 <= k < i ==> #[trigger] mat_to_block@[k] == material_block(*registry, count as int, k),
            decreases max_materials - i,
        {
            if (i as usize) < count {
                mat_to_block.push(registry.block_for_material(TerrainMatId(i)).0 as u32);
            } else {
                mat_to_block.push(0u32);
            }
            i = i + 1;
        }
        let p = WvParams {
            columns,
            mat_to_block,
            world_min: placement.world_min,
            cell_size: placement.cell_size,
            halo_edge: halo_edge(lod) as u32,
            surface_skin_depth: placement.surface_skin_depth,
            world_seed: world_seed_u32(world_seed),
            temp_seed: climate.temp_seed,
            humid_seed: climate.humid_seed,
            climate_octaves: climate.octaves,
            mat_count: count as u32,
            climate_base_freq: climate.base_freq,
            climate_lacunarity: climate.lacunarity,
            climate_gain: climate.gain,
            climate_norm_bound: climate.norm_bound,
        };
        assert(p.mat_to_block@ =~= Seq::new(
            max_materials as nat,
            |i: int| material_block(*registry, p.mat_count as int, i),
        ));
        p
    }
}

/// The number of cells of a haloed brick.
pub fn halo_cell_count(lod: u32) -> (n: usize)
    ensures
        n == 1000,
{
    let h: usize = halo_edge(lod) as usize;
    assert(h == 10);
    h * h * h
}

/// The end of the line that begins at `start`: the next line feed, or the end of the text.
pub open spec fn line_break(text: Seq<char>, start: int) -> int
    decreases text.len() - start,
{
    if start < 0 || start >= text.len() {
        text.len() as int
    } else if text[start] == '\n' {
        start
    } else {
        line_break(text, start + 1)
    }
}

/// The end of what the line that begins at `start` holds: a carriage return before the line feed is not
/// part of it.
pub open spec fn line_end(text: Seq<char>, start: int) -> int {
    let b = line_break(text, start);
    if start < b < text.len() && text[b - 1] == '\r' {
        b - 1
    } else {
        b
    }
}

/// The lines of a text from `start` on. A line feed at the end begins no further line.
pub open spec fn lines_from(text: Seq<char>, start: int) -> Seq<Seq<char>>
    decreases text.len() + 1 - start,
{
    if start < 0 || start >= text.len() {
        Seq::empty()
    } else {
        proof {
            lemma_line_break(text, start);
        }
        seq![text.subrange(start, line_end(text, start))] + lines_from(text, line_break(text, start) + 1)
    }
}

/// Whether a line declares an import path: white space, then the word for it.
pub open spec fn is_import(line: Seq<char>) -> bool {
    exists|k: int|
        0 <= k && k + 19 <= line.len() && #[trigger] line.subrange(k, k + 19) == "#define_import_path"@ && (
        forall|i: int| 0 <= i < k ==> is_white(#[trigger] line[i]))
}

/// The lines that declare no import path.
pub open spec fn kept_lines(lines: Seq<Seq<char>>) -> Seq<Seq<char>>
    decreases lines.len(),
{
    if lines.len() == 0 {
        Seq::empty()
    } else if is_import(lines[0]) {
        kept_lines(lines.skip(1))
    } else {
        seq![lines[0]] + kept_lines(lines.skip(1))
    }
}

/// Lines joined by line feeds.
pub open spec fn joined(lines: Seq<Seq<char>>) -> Seq<char>
    decreases lines.len(),
{
    if lines.len() == 0 {
        Seq::empty()
    } else if lines.len() == 1 {
        lines[0]
    } else {
        joined(lines.drop_last()) + seq!['\n'] + lines.last()
    }
}

/// A library text without its import path declarations.
pub open spec fn stripped(text: Seq<char>) -> Seq<char> {
    joined(kept_lines(lines_from(text, 0)))
}

/// Where a line ends: at a line feed or at the end of the text, with no line feed before it.
pub proof fn lemma_line_break(text: Seq<char>, start: int)
    requires
        0 <= start <= text.len(),
    ensures
        start <= line_break(text, start) <= text.len(),
        line_break(text, start) < text.len() ==> text[line_break(text, start)] == '\n',
        forall|i: int| start <= i < line_break(text, start) ==> #[trigger] text[i] != '\n',
    decreases text.len() - start,
{
    if start < text.len() && text[start] != '\n' {
        lemma_line_break(text, start + 1);
    }
}

fn find_break(v: &Vec<char>, start: usize) -> (b: usize)
    requires
        start <= v@.len(),
    ensures
        b == line_break(v@, start as int),
        start <= b <= v@.len(),
{
    let mut b: usize = start;
    while b < v.len() && v[b] != '\n'
        invariant
            start <= b <= v@.len(),
            line_break(v@, b as int) == line_break(v@, start as int),
        decreases v@.len() - b,
    {
        b = b + 1;
    }
    b
}

fn declares_import(v: &Vec<char>, start: usize, end: usize) -> (r: bool)
    requires
        start <= end <= v@.len(),
    ensures
        r == is_import(v@.subrange(start as int, end as int)),
{
    let word: Vec<char> = chars_of("#define_import_path");
    let ghost line = v@.subrange(start as int, end as int);
    proof {
        reveal_strlit("#define_import_path");
        assert(word@.len() == 19);
        assert(word@[0] == '#');
        assert(!is_white('#'));
    }
    let mut k: usize = start;
    while k < end && white(v[k])
        invariant
            start <= k <= end <= v@.len(),
            line == v@.subrange(start as int, end as int),
            forall|i: int| 0 <= i < k - start ==> is_white(#[trigger] line[i]),
        ensures
            start <= k <= end,
            forall|i: int| 0 <= i < k - start ==> is_white(#[trigger] line[i]),
            k < end ==> !is_white(v@[k as int]),
        decreases end - k,
    {
        assert(line[k - start] == v@[k as int]);
        k = k + 1;
    }
    let ghost at: int = k - start;
    proof {
        assert forall|j: int|
            0 <= j && j + 19 <= line.len() && #[trigger] line.subrange(j, j + 19) == word@ && (forall|i: int|
                0 <= i < j ==> is_white(#[trigger] line[i])) implies j == at by {
            assert(line.subrange(j, j + 19)[0] == line[j]);
            if j > at {
                assert(line[at] == v@[k as int]);
                assert(is_white(line[at]));
            }
            if j < at {
                assert(is_white(line[j]));
            }
        }
    }
    if end - k < 19 {
        return false;
    }
    let mut n: usize = 0;
    while n < 19
        invariant
            n <= 19,
            word@.len() == 19,
            start <= k,
            k + 19 <= end <= v@.len(),
            line == v@.subrange(start as int, end as int),
            at == k - start,
            word@ == "#define_import_path"@,
            forall|j: int|
                0 <= j && j + 19 <= line.len() && #[trigger] line.subrange(j, j + 19) == word@ && (forall|i: int|
                    0 <= i < j ==> is_white(#[trigger] line[i])) ==> j == at,
            forall|i: int| 0 <= i < n ==> v@[k + i] == #[trigger] word@[i],
        decreases 19 - n,
    {
        if v[k + n] != word[n] {
            proof {
                if is_import(line) {
                    let j = choose|j: int|
                        0 <= j && j + 19 <= line.len() && #[trigger] line.subrange(j, j + 19)
                            == "#define_import_path"@ && (forall|i: int| 0 <= i < j ==> is_white(#[trigger] line[i]));
                    assert(line.subrange(j, j + 19)[n as int] == v@[k + n]);
                }
            }
            return false;
        }
        n = n + 1;
    }
    assert(line.subrange(at, at + 19) =~= word@);
    true
}

/// A library text without its import path declarations: its other lines, joined by line feeds.
pub fn lib_source(text: &str) -> (out: String)
    ensures
        out@ == stripped(text@),
{
    let v: Vec<char> = chars_of(text);
    let mut out: String = String::new();
    let mut first: bool = true;
    let mut start: usize = 0;
    let ghost mut kept: Seq<Seq<char>> = Seq::empty();
    proof {
        reveal_strlit("\n");
        assert(kept + kept_lines(lines_from(text@, 0)) =~= kept_lines(lines_from(text@, 0)));
    }
    while start < v.len()
        invariant
            start <= v@.len(),
            v@ == text@,
            first == (kept.len() == 0),
            out@ == joined(kept),
            "\n"@ == seq!['\n'],
            kept_lines(lines_from(text@, 0)) == kept + kept_lines(lines_from(text@, start as int)),
        decreases v@.len() - start,
    {
        proof {
            lemma_line_break(v@, start as int);
        }
        let b: usize = find_break(&v, start);
        let end: usize = if start < b && b < v.len() && v[b - 1] == '\r' {
            b - 1
        } else {
            b
        };
        let ghost line = text@.subrange(start as int, end as int);
        let ghost rest = lines_from(text@, b + 1);
        proof {
            assert(lines_from(text@, start as int) == seq![line] + rest);
            assert((seq![line] + rest).skip(1) =~= rest);
        }
        if !declares_import(&v, start, end) {
            if !first {
                out.append("\n");
            }
            out.append(text.substring_char(start, end));
            proof {
                let before = kept;
                kept = kept.push(line);
                assert(kept.drop_last() =~= before);
                assert(out@ =~= joined(kept));
                assert(before + (seq![line] + kept_lines(rest)) =~= kept + kept_lines(rest));
            }
            first = false;
        }
        if b < v.len() {
            start = b + 1;
        } else {
            assert(lines_from(text@, b + 1) =~= lines_from(text@, b as int));
            start = b;
        }
    }
    assert(kept + kept_lines(lines_from(text@, start as int)) =~= kept);
    out
}

/// The text of the voxelizer's shader: the height library, the generated graph and the voxelize library,
/// the libraries without their import path declarations.
pub fn voxelize_shader_src(height_lib: &str, generated: &str, voxelize_lib: &str) -> (out: String)
    ensures
        out@ == stripped(height_lib@) + "\n\n"@ + generated@ + "\n\n"@ + stripped(voxelize_lib@) + "\n"@,
{
    let mut out: String = lib_source(height_lib);
    let tail: String = lib_source(voxelize_lib);
    out.append("\n\n");
    out.append(generated);
    out.append("\n\n");
    out.append(tail.as_str());
    out.append("\n");
    out
}

/// A stripped library text has no line that declares an import path.
pub proof fn law_no_import_lines(text: Seq<char>, i: int)
    requires
        0 <= i < lines_from(stripped(text), 0).len(),
    ensures
        !is_import(lines_from(stripped(text), 0)[i]),
{
    let lines = lines_from(text, 0);
    let kept = kept_lines(lines);
    lemma_lines_plain(text, 0);
    lemma_kept_plain(lines);
    if kept.len() == 0 {
        assert(stripped(text).len() == 0);
    } else {
        lemma_places(kept);
        lemma_no_import_from(kept, 0, i);
    }
}

/// Whether a line has no line feed.
spec fn plain(line: Seq<char>) -> bool {
    forall|i: int| 0 <= i < line.len() ==> #[trigger] line[i] != '\n'
}

proof fn lemma_lines_plain(text: Seq<char>, start: int)
    requires
        0 <= start,
    ensures
        forall|j: int| 0 <= j < lines_from(text, start).len() ==> plain(#[trigger] lines_from(text, start)[j]),
    decreases text.len() + 1 - start,
{
    if start < text.len() {
        lemma_line_break(text, start);
        let b = line_break(text, start);
        lemma_lines_plain(text, b + 1);
        let line = text.subrange(start, line_end(text, start));
        assert(plain(line)) by {
            assert forall|i: int| 0 <= i < line.len() implies #[trigger] line[i] != '\n' by {
                assert(line[i] == text[start + i]);
            }
        }
        let rest = lines_from(text, b + 1);
        assert forall|j: int| 0 <= j < lines_from(text, start).len() implies plain(
            #[trigger] lines_from(text, start)[j],
        ) by {
            if j > 0 {
                assert(lines_from(text, start)[j] == rest[j - 1]);
            }
        }
    }
}

proof fn lemma_kept_plain(lines: Seq<Seq<char>>)
    requires
        forall|j: int| 0 <= j < lines.len() ==> plain(#[trigger] lines[j]),
    ensures
        forall|j: int|
            0 <= j < kept_lines(lines).len() ==> plain(#[trigger] kept_lines(lines)[j]) && !is_import(
                kept_lines(lines)[j],
            ),
    decreases lines.len(),
{
    if lines.len() > 0 {
        let rest = lines.skip(1);
        assert forall|j: int| 0 <= j < rest.len() implies plain(#[trigger] rest[j]) by {
            assert(rest[j] == lines[j + 1]);
        }
        lemma_kept_plain(rest);
        let kept = kept_lines(lines);
        assert forall|j: int| 0 <= j < kept.len() implies plain(#[trigger] kept[j]) && !is_import(kept[j]) by {
            if !is_import(lines[0]) {
                if j > 0 {
                    assert(kept[j] == kept_lines(rest)[j - 1]);
                } else {
                    assert(kept[j] == lines[0]);
                }
            } else {
                assert(kept[j] == kept_lines(rest)[j]);
            }
        }
    }
}

/// Where line `j` begins among lines joined by line feeds.
spec fn place(lines: Seq<Seq<char>>, j: int) -> int
    decreases j,
{
    if j <= 0 {
        0
    } else {
        place(lines, j - 1) + lines[j - 1].len() + 1
    }
}

/// Whether line `j` lies at its place among the joined lines, with a line feed behind it but for the last.
spec fn lies(lines: Seq<Seq<char>>, j: int) -> bool {
    let text = joined(lines);
    let p = place(lines, j);
    &&& 0 <= p
    &&& p + lines[j].len() <= text.len()
    &&& text.subrange(p, p + lines[j].len() as int) == lines[j]
    &&& (j < lines.len() - 1 ==> p + lines[j].len() < text.len() && text[p + lines[j].len() as int] == '\n')
    &&& (j == lines.len() - 1 ==> p + lines[j].len() == text.len())
}

proof fn lemma_place_drop(lines: Seq<Seq<char>>, j: int)
    requires
        0 <= j < lines.len(),
    ensures
        place(lines, j) == place(lines.drop_last(), j),
        place(lines, j) >= 0,
    decreases j,
{
    if j > 0 {
        lemma_place_drop(lines, j - 1);
    }
}

proof fn lemma_places(lines: Seq<Seq<char>>)
    requires
        lines.len() > 0,
    ensures
        forall|j: int| 0 <= j < lines.len() ==> #[trigger] lies(lines, j),
    decreases lines.len(),
{
    let n: int = lines.len() as int;
    let text = joined(lines);
    if n == 1 {
        assert(text.subrange(0, text.len() as int) =~= lines[0]);
        assert(lies(lines, 0));
    } else {
        let front = lines.drop_last();
        let head = joined(front);
        lemma_places(front);
        assert(text == head + seq!['\n'] + lines.last());
        assert forall|j: int| 0 <= j < lines.len() implies #[trigger] lies(lines, j) by {
            if j < n - 1 {
                lemma_place_drop(lines, j);
                assert(lies(front, j));
                let p = place(lines, j);
                assert(front[j] == lines[j]);
                assert(text.subrange(p, p + lines[j].len() as int) =~= head.subrange(p, p + lines[j].len() as int));
            } else {
                lemma_place_drop(lines, n - 2);
                assert(lies(front, n - 2));
                let p = place(lines, j);
                assert(p == head.len() + 1);
                assert(text.subrange(p, p + lines[j].len() as int) =~= lines[j]);
            }
        }
    }
}

proof fn lemma_break_at(text: Seq<char>, start: int, end: int)
    requires
        0 <= start <= end <= text.len(),
        forall|i: int| start <= i < end ==> #[trigger] text[i] != '\n',
        end < text.len() ==> text[end] == '\n',
    ensures
        line_break(text, start) == end,
    decreases end - start,
{
    if start < end {
        lemma_break_at(text, start + 1, end);
    }
}

proof fn lemma_no_import_from(lines: Seq<Seq<char>>, j: int, i: int)
    requires
        0 <= j < lines.len(),
        forall|k: int| 0 <= k < lines.len() ==> plain(#[trigger] lines[k]) && !is_import(lines[k]),
        forall|k: int| 0 <= k < lines.len() ==> #[trigger] lies(lines, k),
        0 <= i < lines_from(joined(lines), place(lines, j)).len(),
    ensures
        !is_import(lines_from(joined(lines), place(lines, j))[i]),
    decreases lines.len() - j,
{
    let text = joined(lines);
    let p = place(lines, j);
    let q: int = p + lines[j].len();
    assert(lies(lines, j));
    if p < text.len() {
        let line = text.subrange(p, q);
        assert(line == lines[j]);
        assert forall|k: int| p <= k < q implies #[trigger] text[k] != '\n' by {
            assert(line[k - p] == text[k]);
            assert(plain(lines[j]));
        }
        lemma_break_at(text, p, q);
        let first = text.subrange(p, line_end(text, p));
        if i == 0 {
            assert(first.len() <= line.len());
            assert forall|k: int| 0 <= k < first.len() implies #[trigger] first[k] == line[k] by {}
            if is_import(first) {
                let k = choose|k: int|
                    0 <= k && k + 19 <= first.len() && #[trigger] first.subrange(k, k + 19)
                        == "#define_import_path"@ && (forall|m: int| 0 <= m < k ==> is_white(#[trigger] first[m]));
                assert(line.subrange(k, k + 19) =~= first.subrange(k, k + 19));
                assert forall|m: int| 0 <= m < k implies is_white(#[trigger] line[m]) by {
                    assert(first[m] == line[m]);
                }
                assert(is_import(line));
            }
        } else {
            let rest = lines_from(text, q + 1);
            assert(lines_from(text, p)[i] == rest[i - 1]);
            if j < lines.len() - 1 {
                assert(place(lines, j + 1) == q + 1);
                lemma_no_import_from(lines, j + 1, i - 1);
            }
        }
    }
}

/// The column of a biome: its layers from the top, at most eight of them, each with its own depth and material, and the
/// biome's surface and bedrock. What is past the layers is zero.
pub proof fn law_column_of_a_biome(c: WvBiomeColumn, def: BiomeDef, i: int)
    requires
        is_column(c, def),
        0 <= i < 8,
    ensures
        c.surface_mat == def.surface.0,
        c.bedrock_mat == def.bedrock.0,
        def.strata@.len() <= 8 ==> c.layer_count == def.strata@.len(),
        def.strata@.len() > 8 ==> c.layer_count == 8,
        i < def.strata@.len() ==> c.layer_bottom@[i] == def.strata@[i].bottom && c.layer_mat@[i]
            == def.strata@[i].material.0,
        i >= def.strata@.len() ==> c.layer_bottom@[i] == 0 && c.layer_mat@[i] == 0,
        c._pad == 0,
{
}

/// A blank column has nothing but zeros.
pub proof fn law_blank_column(c: WvBiomeColumn, i: int)
    requires
        is_blank(c),
        0 <= i < 8,
    ensures
        c.surface_mat == 0 && c.bedrock_mat == 0 && c.layer_count == 0 && c._pad == 0,
        c.layer_bottom@[i] == 0,
        c.layer_mat@[i] == 0,
{
}

/// The seed of the shader has both halves of the world's seed in it: each of its bits is set where the bits of the two
/// halves differ.
pub proof fn law_seed_folds_both_halves(seed: u64, k: u32)
    requires
        k < 32,
    ensures
        (folded_seed(seed) >> k) & 1 == 1 <==> (seed >> (k as u64)) & 1 != (seed >> ((k + 32) as u64)) & 1,
        seed < 0x1_0000_0000 ==> folded_seed(seed) == seed,
{
    let lo = (seed % 0x1_0000_0000) as u32;
    let hi = (seed / 0x1_0000_0000) as u32;
    let f = lo ^ hi;
    let m = k as u64;
    let n = (k + 32) as u64;
    assert(((f >> k) & 1 == 1) == ((seed >> m) & 1 != (seed >> n) & 1)) by (bit_vector)
        requires
            k < 32,
            m == k,
            n == k + 32,
            lo == seed % 0x1_0000_0000,
            hi == seed / 0x1_0000_0000,
            f == lo ^ hi,
    ;
    if seed < 0x1_0000_0000 {
        assert(lo ^ 0u32 == lo) by (bit_vector);
    }
}

/// The parameters mirror what they are made of: a column for each of the five biomes, in order, or none; for each
/// material below the count its block, and no block for the others; the placement, the climate and the seed as they are.
pub proof fn law_parameters_mirror_their_sources(
    p: WvParams,
    placement: WvPlacement,
    lib: BiomeLibrary,
    registry: BlockRegistry,
    world_seed: u64,
    climate: ClimateGpuParams,
    max_materials: u16,
    i: int,
    m: u16,
)
    requires
        is_params(p, placement, lib, registry, world_seed, climate, max_materials),
        0 <= i < 5,
        m < max_materials,
    ensures
        lib.biomes@.len() == 5 ==> p.columns@[i].surface_mat == lib.biomes@[i].surface.0 && p.columns@[i].bedrock_mat
            == lib.biomes@[i].bedrock.0,
        lib.biomes@.len() != 5 ==> p.columns@[i].surface_mat == 0 && p.columns@[i].layer_count == 0,
        p.mat_to_block@.len() == max_materials,
        p.mat_count <= max_materials && p.mat_count <= lib.materials@.len(),
        p.mat_count == max_materials || p.mat_count == lib.materials@.len(),
        m < lib.materials@.len() && registry.bridge().dom().contains(m) ==> p.mat_to_block@[m as int]
            == registry.bridge()[m].0,
        m >= lib.materials@.len() || !registry.bridge().dom().contains(m) ==> p.mat_to_block@[m as int] == 0,
        p.world_min@ == placement.world_min@,
        p.cell_size == placement.cell_size,
        p.surface_skin_depth == placement.surface_skin_depth,
        p.halo_edge == 10,
        p.world_seed == folded_seed(world_seed),
        p.temp_seed == climate.temp_seed && p.humid_seed == climate.humid_seed,
        p.climate_octaves == climate.octaves && p.climate_base_freq == climate.base_freq,
        p.climate_lacunarity == climate.lacunarity && p.climate_gain == climate.gain,
        p.climate_norm_bound == climate.norm_bound,
{
    if lib.biomes@.len() == 5 {
        assert(is_column(p.columns@[i], lib.biomes@[i]));
    } else {
        assert(is_blank(p.columns@[i]));
    }
    assert(p.mat_to_block@[m as int] == material_block(registry, p.mat_count as int, m as int));
}

proof fn lemma_break_shift(text: Seq<char>, s: int, t: int)
    requires
        0 <= s <= text.len(),
        0 <= t,
    ensures
        line_break(text, s + t) == s + line_break(text.skip(s), t),
    decreases text.len() - s - t,
{
    if s + t < text.len() {
        assert(text.skip(s)[t] == text[s + t]);
        if text[s + t] != '\n' {
            lemma_break_shift(text, s, t + 1);
        }
    }
}

proof fn lemma_lines_shift(text: Seq<char>, s: int, t: int)
    requires
        0 <= s <= text.len(),
        0 <= t,
    ensures
        lines_from(text, s + t) == lines_from(text.skip(s), t),
    decreases text.len() + 1 - s - t,
{
    let rest = text.skip(s);
    if s + t < text.len() {
        lemma_line_break(text, s + t);
        lemma_line_break(rest, t);
        lemma_break_shift(text, s, t);
        let b = line_break(rest, t);
        if t < b < rest.len() {
            assert(rest[b - 1] == text[s + b - 1]);
        }
        assert(text.subrange(s + t, line_end(text, s + t)) =~= rest.subrange(t, line_end(rest, t)));
        lemma_lines_shift(text, s, b + 1);
    }
}

proof fn lemma_joined_front(line: Seq<char>, rest: Seq<Seq<char>>)
    requires
        rest.len() > 0,
    ensures
        joined(seq![line] + rest) == line + seq!['\n'] + joined(rest),
    decreases rest.len(),
{
    let all = seq![line] + rest;
    assert(all.last() == rest.last());
    if rest.len() == 1 {
        assert(all.drop_last() =~= seq![line]);
        assert(joined(all.drop_last()) == line);
    } else {
        assert(all.drop_last() =~= seq![line] + rest.drop_last());
        lemma_joined_front(line, rest.drop_last());
        assert(joined(all) =~= line + seq!['\n'] + joined(rest));
    }
}

/// A library text is stripped line by line: a line that declares an import path goes with its line feed, and any other
/// stays in its place, without a carriage return at its end, on a line of its own before what stays of the rest.
pub proof fn law_stripping_goes_by_lines(line: Seq<char>, rest: Seq<char>)
    requires
        forall|i: int| 0 <= i < line.len() ==> #[trigger] line[i] != '\n',
    ensures
        ({
            let held = if line.len() > 0 && line.last() == '\r' {
                line.drop_last()
            } else {
                line
            };
            let text = line + seq!['\n'] + rest;
            let others = kept_lines(lines_from(rest, 0));
            &&& is_import(held) ==> stripped(text) == stripped(rest)
            &&& !is_import(held) && others.len() > 0 ==> stripped(text) == held + seq!['\n'] + stripped(rest)
            &&& !is_import(held) && others.len() == 0 ==> stripped(text) == held
        }),
        is_import(line) || line.len() == 0 ==> stripped(line) == Seq::<char>::empty(),
        !is_import(line) ==> stripped(line) == line,
{
    let held = if line.len() > 0 && line.last() == '\r' {
        line.drop_last()
    } else {
        line
    };
    let n = line.len() as int;
    let text = line + seq!['\n'] + rest;
    assert forall|i: int| 0 <= i < n implies text[i] != '\n' by {
        assert(text[i] == line[i]);
    }
    assert(text[n] == '\n');
    lemma_break_at(text, 0, n);
    if n > 0 {
        assert(text[n - 1] == line.last());
    }
    assert(text.subrange(0, line_end(text, 0)) =~= held);
    assert(text.skip(n + 1) =~= rest);
    lemma_lines_shift(text, n + 1, 0);
    let tail = lines_from(rest, 0);
    assert(lines_from(text, 0) == seq![held] + tail);
    assert((seq![held] + tail).skip(1) =~= tail);
    let others = kept_lines(tail);
    if !is_import(held) {
        if others.len() > 0 {
            lemma_joined_front(held, others);
        } else {
            assert(seq![held] + others =~= seq![held]);
        }
    }
    if n > 0 {
        lemma_break_at(line, 0, n);
        assert(line.subrange(0, line_end(line, 0)) =~= line);
        assert(lines_from(line, n + 1) =~= Seq::empty());
        assert(lines_from(line, 0) =~= seq![line]);
        assert(seq![line].skip(1) =~= Seq::empty());
        assert(kept_lines(Seq::<Seq<char>>::empty()) =~= Seq::empty());
        if !is_import(line) {
            assert(kept_lines(seq![line]) =~= seq![line]);
        }
    } else {
        assert(line =~= Seq::empty());
    }
}

/// A line declares an import path just where the word for it is the first thing in it that is not white space.
pub proof fn law_import_lines(indent: Seq<char>, more: Seq<char>)
    requires
        forall|i: int| 0 <= i < indent.len() ==> is_white(#[trigger] indent[i]),
    ensures
        is_import(indent + "#define_import_path"@ + more),
        more.len() > 0 && !is_white(more[0]) && more[0] != '#' ==> !is_import(indent + more),
        !is_import(indent),
{
    reveal_strlit("#define_import_path");
    let line = indent + "#define_import_path"@ + more;
    let k = indent.len() as int;
    assert(line.subrange(k, k + 19) =~= "#define_import_path"@);
    assert forall|i: int| 0 <= i < k implies is_white(#[trigger] line[i]) by {
        assert(line[i] == indent[i]);
    }
    let other = indent + more;
    assert(!is_white('#'));
    if more.len() > 0 && !is_white(more[0]) && more[0] != '#' && is_import(other) {
        let j = choose|j: int|
            0 <= j && j + 19 <= other.len() && #[trigger] other.subrange(j, j + 19) == "#define_import_path"@ && (
            forall|i: int| 0 <= i < j ==> is_white(#[trigger] other[i]));
        assert(other.subrange(j, j + 19)[0] == other[j]);
        assert(other[j] == '#');
        if j < k {
            assert(other[j] == indent[j]);
        } else if j > k {
            assert(other[k] == more[0]);
            assert(is_white(other[k]));
        } else {
            assert(other[j] == more[0]);
        }
    }
    if is_import(indent) {
        let j = choose|j: int|
            0 <= j && j + 19 <= indent.len() && #[trigger] indent.subrange(j, j + 19) == "#define_import_path"@ && (
            forall|i: int| 0 <= i < j ==> is_white(#[trigger] indent[i]));
        assert(indent.subrange(j, j + 19)[0] == indent[j]);
    }
}

} // verus!
