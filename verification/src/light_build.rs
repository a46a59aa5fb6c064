//! The plan of the light list that is built on the GPU: the buffers, the bindings, the dispatches, and the ring of
//! two staging buffers through which the light count comes back a frame late.

use crate::patch::MAX_VOXEL_LIGHTS;
use vstd::prelude::*;

verus! {

/// The bit pattern of the float `1.0e6`, the scale of light powers.
pub const POWER_SCALE_BITS: u32 = 0x4974_2400;

/// Threads of a workgroup.
pub const WORKGROUP: u32 = 64;

/// Number of buffers that are bound.
pub const LIGHT_BINDINGS: usize = 13;

/// The uniform of the light build. `power_scale` is the bit pattern of a float.
#[derive(Clone, Copy, Debug, PartialEq, Eq, Structural)]
pub struct LightConfig {
    pub brick_count: u32,
    pub max_lights: u32,
    pub power_scale: u32,
    pub _pad: u32,
}

/// The sizes of the buffers, in bytes.
#[derive(Clone, Copy, Debug, PartialEq, Eq, Structural)]
pub struct LightBufferSizes {
    pub config: u64,
    pub candidates: u64,
    pub candidate_count: u64,
    pub power_sum: u64,
    pub lights: u64,
    pub alias: u64,
    pub scaled: u64,
    pub small: u64,
    pub large: u64,
    pub count_staging: u64,
}

/// The sizes of the buffers: room for as many lights as there may be, at 32 bytes for a light, 8 for an entry of the
/// alias table and 4 for a number.
pub fn light_buffer_sizes() -> (s: LightBufferSizes)
    ensures
        s == (LightBufferSizes {
            config: 16,
            candidates: (MAX_VOXEL_LIGHTS * 32) as u64,
            candidate_count: 4,
            power_sum: 4,
            lights: (MAX_VOXEL_LIGHTS * 32) as u64,
            alias: (MAX_VOXEL_LIGHTS * 8) as u64,
            scaled: (MAX_VOXEL_LIGHTS * 4) as u64,
            small: (MAX_VOXEL_LIGHTS * 4) as u64,
            large: (MAX_VOXEL_LIGHTS * 4) as u64,
            count_staging: 4,
        }),
{
    let n: u64 = MAX_VOXEL_LIGHTS as u64;
    LightBufferSizes {
        config: 16,
        candidates: n * 32,
        candidate_count: 4,
        power_sum: 4,
        lights: n * 32,
        alias: n * 8,
        scaled: n * 4,
        small: n * 4,
        large: n * 4,
        count_staging: 4,
    }
}

/// How a buffer is bound.
#[derive(Clone, Copy, Debug, PartialEq, Eq, Structural)]
pub enum LightBinding {
    Uniform,
    ReadOnly,
    ReadWrite,
}

/// How buffer `b` is bound: the four of the pool are only read, and the one after them is the uniform.
pub open spec fn binding_of(b: int) -> LightBinding {
    if b == 4 {
        LightBinding::Uniform
    } else if b <= 3 {
        LightBinding::ReadOnly
    } else {
        LightBinding::ReadWrite
    }
}

/// How the buffers are bound, in order.
pub fn light_bindings() -> (v: Vec<LightBinding>)
    ensures
        v@ == Seq::new(13, |b: int| binding_of(b)),
{
    let mut v: Vec<LightBinding> = Vec::new();
    let mut b: usize = 0;
    while b < LIGHT_BINDINGS
        invariant
            b <= 13,
            v@.len() == b,
            forall|k: int| 0 <= k < b ==> #[trigger] v@[k] == binding_of(k),
        decreases 13 - b,
    {
        if b == 4 {
            v.push(LightBinding::Uniform);
        } else if b <= 3 {
            v.push(LightBinding::ReadOnly);
        } else {
            v.push(LightBinding::ReadWrite);
        }
        b = b + 1;
    }
    assert(v@ =~= Seq::new(13, |b: int| binding_of(b)));
    v
}

/// The workgroups of the three passes of a build.
#[derive(Clone, Copy, Debug, PartialEq, Eq, Structural)]
pub struct LightDispatch {
    pub config: LightConfig,
    pub gather: u32,
    pub write: u32,
    pub alias: u32,
}

/// The fewest workgroups with a thread for each of `n`.
pub open spec fn groups(n: int) -> int {
    (n + 63) / 64
}

fn workgroups(n: u32) -> (g: u32)
    ensures
        g == groups(n as int),
{
    if n % WORKGROUP == 0 {
        n / WORKGROUP
    } else {
        n / WORKGROUP + 1
    }
}

/// What is dispatched for a pool of so many bricks.
pub open spec fn dispatch_of(brick_count: u32) -> LightDispatch {
    LightDispatch {
        config: LightConfig {
            brick_count,
            max_lights: MAX_VOXEL_LIGHTS as u32,
            power_scale: POWER_SCALE_BITS,
            _pad: 0,
        },
        gather: (if brick_count == 0 { 1 } else { groups(brick_count as int) }) as u32,
        write: groups(MAX_VOXEL_LIGHTS as int) as u32,
        alias: 1,
    }
}

/// The count that four bytes give, least byte first, cut to the number of lights there may be.
pub open spec fn counted(b: Seq<u8>) -> int {
    let n = b[0] + 0x100 * b[1] + 0x1_0000 * b[2] + 0x100_0000 * b[3];
    if n <= MAX_VOXEL_LIGHTS {
        n
    } else {
        MAX_VOXEL_LIGHTS as int
    }
}

/// What is recorded for a build: the state of the ring of staging buffers, the last light count that came back, and
/// whether the pool is bound.
#[derive(Clone, Copy, Debug, PartialEq, Eq, Structural)]
pub struct LightBuildState {
    /// The staging buffer that this frame's count is copied into.
    pub ring: u32,
    /// The last light count that came back.
    pub count: u32,
    /// Whether the pool is bound.
    pub bound: bool,
}

impl LightBuildState {
    /// The ring has two buffers, and the count is at most that of the lights there may be.
    pub open spec fn wf(&self) -> bool {
        self.ring <= 1 && self.count <= MAX_VOXEL_LIGHTS
    }

    /// Nothing bound, no lights.
    pub fn new() -> (s: LightBuildState)
        ensures
            s.wf(),
            s.ring == 0,
            s.count == 0,
            !s.bound,
    {
        LightBuildState { ring: 0, count: 0, bound: false }
    }

    /// The pool has been bound.
    pub fn rebind(&mut self)
        requires
            old(self).wf(),
        ensures
            final(self).wf(),
            final(self).bound,
            final(self).ring == old(self).ring,
            final(self).count == old(self).count,
    {
        self.bound = true;
    }

    /// The pool is no longer bound.
    pub fn unbind(&mut self)
        requires
            old(self).wf(),
        ensures
            final(self).wf(),
            !final(self).bound,
            final(self).ring == old(self).ring,
            final(self).count == old(self).count,
    {
        self.bound = false;
    }

    /// Whether the pool is bound.
    pub fn is_bound(&self) -> (b: bool)
        ensures
            b == self.bound,
    {
        self.bound
    }

    /// The staging buffer that this frame's count is copied into.
    pub fn staging_slot(&self) -> (s: u32)
        requires
            self.wf(),
        ensures
            s == self.ring,
            s <= 1,
    {
        self.ring
    }

    /// The passes over `brick_count` slots of the pool, where it is bound: at least one workgroup gathers, every
    /// light there may be is written, and one workgroup makes the alias table.
    pub fn record(&self, brick_count: u32) -> (d: Option<LightDispatch>)
        ensures
            d is Some == self.bound,
            d matches Some(p) ==> p == dispatch_of(brick_count),
    {
        if !self.bound {
            return None;
        }
        let gather: u32 = workgroups(brick_count);
        Some(
            LightDispatch {
                config: LightConfig {
                    brick_count,
                    max_lights: MAX_VOXEL_LIGHTS as u32,
                    power_scale: POWER_SCALE_BITS,
                    _pad: 0,
                },
                gather: if gather == 0 { 1 } else { gather },
                write: workgroups(MAX_VOXEL_LIGHTS as u32),
                alias: 1,
            },
        )
    }

    /// The staging buffer to read: the one that is not being written.
    pub fn poll_slot(&self) -> (s: u32)
        requires
            self.wf(),
        ensures
            s == 1 - self.ring,
    {
        1 - self.ring
    }

    /// The bytes of a staging buffer came back, least byte first, or could not be read. The count is cut to the number
    /// of lights there may be.
    pub fn poll_count(&mut self, bytes: Option<[u8; 4]>)
        requires
            old(self).wf(),
        ensures
            final(self).wf(),
            final(self).ring == old(self).ring,
            final(self).bound == old(self).bound,
            final(self).count == match bytes {
                None => old(self).count as int,
                Some(b) => counted(b@),
            },
    {
        if let Some(b) = bytes {
            let n: u32 = b[0] as u32 + 0x100 * b[1] as u32 + 0x1_0000 * b[2] as u32 + 0x100_0000 * b[3] as u32;
            self.count = if n <= MAX_VOXEL_LIGHTS as u32 {
                n
            } else {
                MAX_VOXEL_LIGHTS as u32
            };
        }
    }

    /// Go on to the other staging buffer.
    pub fn advance_ring(&mut self)
        requires
            old(self).wf(),
        ensures
            final(self).wf(),
            final(self).ring == 1 - old(self).ring,
            final(self).count == old(self).count,
            final(self).bound == old(self).bound,
    {
        self.ring = 1 - self.ring;
    }
}

/// Every slot of the pool has a thread, and no workgroup is without one.
pub proof fn law_dispatch_covers(n: int)
    requires
        0 <= n,
    ensures
        n <= groups(n) * 64,
        (groups(n) - 1) * 64 < n || n == 0,
{
}

/// The count that is read in a frame is the one that was copied in the frame before: the buffer read after going on
/// is the one that was written.
pub proof fn law_count_is_a_frame_late(before: LightBuildState, after: LightBuildState)
    requires
        before.wf(),
        after.ring == 1 - before.ring,
    ensures
        1 - after.ring == before.ring,
{
}

/// A dispatch has a thread for each brick and for each light there may be, and no workgroup too many: but one for no
/// bricks, and one for the alias table. Its configuration has the number of bricks, that of lights, and a million as the
/// scale of powers.
pub proof fn law_dispatch_fits_the_pool(brick_count: u32)
    ensures
        ({
            let d = dispatch_of(brick_count);
            &&& d.config.brick_count == brick_count
            &&& d.config.max_lights == 4096
            &&& d.config.power_scale == 0x4974_2400
            &&& d.config._pad == 0
            &&& brick_count <= 64 * d.gather
            &&& d.gather >= 1
            &&& brick_count > 0 ==> 64 * (d.gather - 1) < brick_count
            &&& brick_count == 0 ==> d.gather == 1
            &&& d.write * 64 == 4096
            &&& d.alias == 1
        }),
{
}

/// The count that came back is the number whose four bytes were written, least byte first, but never more than the
/// lights there may be.
pub proof fn law_count_reads_back(n: u32, b: Seq<u8>)
    requires
        b.len() == 4,
        b[0] == n % 256,
        b[1] == (n / 256) % 256,
        b[2] == (n / 65536) % 256,
        b[3] == n / 16777216,
    ensures
        n <= 4096 ==> counted(b) == n,
        n > 4096 ==> counted(b) == 4096,
{
    assert(n == n % 256 + 256 * ((n / 256) % 256) + 65536 * ((n / 65536) % 256) + 16777216 * (n / 16777216));
}

/// The bindings of the light pass: four that it reads, then its configuration, then eight that it writes.
pub proof fn law_light_bindings(b: int)
    requires
        0 <= b < 13,
    ensures
        b < 4 <==> binding_of(b) is ReadOnly,
        b == 4 <==> binding_of(b) is Uniform,
        b > 4 <==> binding_of(b) is ReadWrite,
{
}

} // verus!
