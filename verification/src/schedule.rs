//! Per-frame bookkeeping of the compute and texture examples: the ping-pong simulation,
//! the layered volume fill, the cloud blocks, workgroup counts and small lookup tables.
use crate::lcg::{next_state, random_step};
use vstd::prelude::*;

verus! {

/// What one frame of the ping-pong simulation does.
#[derive(Clone, Copy, PartialEq, Eq, Debug)]
pub struct PingStep {
    /// When a new second starts on phase 0, two fresh random samples (generator states)
    /// for the initial kernel, which then runs and refreshes the first mip chain.
    pub reseed: Option<(u32, u32)>,
    /// The update kernel that runs, reading one texture and writing the other.
    pub update: usize,
    /// The mip chain refreshed after the update.
    pub mipmap: usize,
    /// The material shown, sampling the texture just read.
    pub material: usize,
}

/// The ping-pong simulation's phase, the second it last reseeded in and its generator.
pub struct PingPong {
    pub phase: usize,
    pub last_second: i64,
    pub seed: u32,
}

impl PingPong {
    /// One frame at whole second `seconds`: on phase 0 a new second reseeds from two
    /// samples; the phase's update runs, the other phase's mips refresh, the phase's
    /// material is shown, and the phase flips.
    pub fn step(&mut self, seconds: i64) -> (s: PingStep)
        requires
            old(self).phase < 2,
        ensures
            old(self).phase == 0 && seconds != old(self).last_second ==> {
                &&& s.reseed == Some((next_state(old(self).seed), next_state(next_state(old(self).seed))))
                &&& final(self).seed == next_state(next_state(old(self).seed))
                &&& final(self).last_second == seconds
            },
            !(old(self).phase == 0 && seconds != old(self).last_second) ==> {
                &&& s.reseed is None
                &&& final(self).seed == old(self).seed
                &&& final(self).last_second == old(self).last_second
            },
            s.update == old(self).phase,
            s.mipmap == 1 - old(self).phase,
            s.material == old(self).phase,
            final(self).phase == 1 - old(self).phase,
    {
        let mut reseed = None;
        if self.phase == 0 && seconds != self.last_second {
            let a = random_step(&mut self.seed);
            let b = random_step(&mut self.seed);
            reseed = Some((a, b));
            self.last_second = seconds;
        }
        let phase = self.phase;
        self.phase = 1 - phase;
        PingStep { reseed, update: phase, mipmap: 1 - phase, material: phase }
    }
}

/// The layers of the layered volume.
pub const LAYERS: u64 = 109;

/// The slice a fill catching up to `desired` starts from: at most one full volume behind.
pub open spec fn fill_start(slice: u64, desired: u64) -> int {
    if desired > slice && desired - slice > 109 {
        desired - 109
    } else {
        slice as int
    }
}

/// The layered volume's fill position: how many slices have been rendered.
pub struct LayeredFill {
    pub slice: u64,
}

impl LayeredFill {
    /// The layers to render so that `desired` slices are done, in order, each slice `k`
    /// going to layer `k % 109`, skipping ahead so that at most one full volume is drawn.
    pub fn layers(&mut self, desired: u64) -> (ls: Vec<u32>)
        ensures
            ls@ == Seq::new(
                (if desired > fill_start(old(self).slice, desired) {
                    desired - fill_start(old(self).slice, desired)
                } else {
                    0
                }) as nat,
                |k: int| ((fill_start(old(self).slice, desired) + k) % 109) as u32,
            ),
            final(self).slice == (if desired > old(self).slice {
                desired
            } else {
                old(self).slice
            }),
            ls.len() <= 109,
            forall|i: int, j: int| 0 <= i < j < ls.len() ==> ls@[i] != ls@[j],
    {
        let ghost start = fill_start(self.slice, desired);
        if desired > self.slice && desired - self.slice > LAYERS {
            self.slice = desired - LAYERS;
        }
        let mut ls: Vec<u32> = Vec::new();
        while self.slice < desired
            invariant
                start <= self.slice,
                self.slice <= desired || self.slice == start,
                ls@ == Seq::new((self.slice - start) as nat, |k: int| ((start + k) % 109) as u32),
            decreases desired - self.slice,
        {
            ls.push((self.slice % LAYERS) as u32);
            self.slice = self.slice + 1;
            assert(ls@ =~= Seq::new((self.slice - start) as nat, |k: int| ((start + k) % 109) as u32));
        }
        assert forall|i: int, j: int| 0 <= i < j < ls.len() implies ls@[i] != ls@[j] by {
            assert(ls@[i] == ((start + i) % 109) as u32);
            assert(ls@[j] == ((start + j) % 109) as u32);
            assert((start + i) % 109 != (start + j) % 109) by (nonlinear_arith)
                requires
                    0 <= i < j < 109,
                    start >= 0,
            ;
        }
        ls
    }
}

/// The viewport `[x, y, width, height]` of view `i` of the layered example: four
/// half-size quadrants, the first two on the upper row.
pub fn quadrant(i: usize, width: u32, height: u32) -> (v: [u32; 4])
    ensures
        v@ == seq![
            (if i % 2 == 1 { width / 2 } else { 0 }) as u32,
            (if i < 2 { height / 2 } else { 0 }) as u32,
            width / 2,
            height / 2,
        ],
{
    let w = width / 2;
    let h = height / 2;
    let x = if i % 2 == 1 {
        w
    } else {
        0
    };
    let y = if i < 2 {
        h
    } else {
        0
    };
    let v = [x, y, w, h];
    assert(v@ =~= seq![x, y, w, h]);
    v
}

/// The texel origin of cloud block `i` of 64 in the 128³ texture: a 4 × 4 × 4 grid with a
/// pitch of 31 and a margin of 4.
pub fn cloud_origin(i: usize) -> (o: [u32; 3])
    requires
        i < 64,
    ensures
        o@ == seq![(i % 4 * 31 + 4) as u32, (i % 16 / 4 * 31 + 4) as u32, (i / 16 * 31 + 4) as u32],
{
    let o = [(i % 4 * 31 + 4) as u32, (i % 16 / 4 * 31 + 4) as u32, (i / 16 * 31 + 4) as u32];
    assert(o@ =~= seq![(i % 4 * 31 + 4) as u32, (i % 16 / 4 * 31 + 4) as u32, (i / 16 * 31 + 4) as u32]);
    o
}

/// The dispatch size of the volume kernel: 125000 invocations spread over the largest
/// first dimension the device allows.
pub fn volume_workgroups(max: u32) -> (g: [u32; 3])
    requires
        max > 0,
    ensures
        g@ == seq![max, ((125000int + max - 1) / (max as int)) as u32, 1u32],
{
    let rows = 125000 / max + if 125000 % max != 0 {
        1
    } else {
        0
    };
    assert(rows == (125000int + max - 1) / (max as int)) by (nonlinear_arith)
        requires
            max > 0,
            rows == 125000int / (max as int) + if 125000int % (max as int) != 0 {
                1int
            } else {
                0int
            },
    ;
    let g = [max, rows, 1];
    assert(g@ =~= seq![max, ((125000int + max - 1) / (max as int)) as u32, 1u32]);
    g
}

/// A texture's wrapping mode.
#[derive(Clone, Copy, PartialEq, Eq, Debug)]
pub enum Wrapping {
    Repeat,
    Clamp,
    Mirror,
}

/// The wrapping menu: repeat, clamp to edge, mirrored repeat, the last for any later index.
pub fn wrapping(index: usize) -> (w: Wrapping)
    ensures
        w == (if index == 0 {
            Wrapping::Repeat
        } else if index == 1 {
            Wrapping::Clamp
        } else {
            Wrapping::Mirror
        }),
{
    if index == 0 {
        Wrapping::Repeat
    } else if index == 1 {
        Wrapping::Clamp
    } else {
        Wrapping::Mirror
    }
}

/// The color of texel `(x, y)` of the interpolation example's 16 × 16 texture: red, green,
/// blue and yellow quadrants, with `y` counted from the bottom.
pub open spec fn checker_color(x: int, y: int) -> Seq<u8> {
    if x < 8 && y < 8 {
        seq![255u8, 0u8, 0u8, 255u8]
    } else if y < 8 {
        seq![0u8, 128u8, 0u8, 255u8]
    } else if x < 8 {
        seq![0u8, 0u8, 255u8, 255u8]
    } else {
        seq![255u8, 255u8, 0u8, 255u8]
    }
}

/// The texture's RGBA bytes, the top row first.
pub open spec fn checker_bytes() -> Seq<u8> {
    Seq::new(1024, |i: int| checker_color((i / 4) % 16, 15 - (i / 4) / 16)[i % 4])
}

/// The interpolation example's texture.
pub fn checker_pixels() -> (p: Vec<u8>)
    ensures
        p@ == checker_bytes(),
{
    let mut p: Vec<u8> = Vec::new();
    let mut row: usize = 0;
    while row < 16
        invariant
            row <= 16,
            p@.len() == 64 * row,
            forall|i: int| 0 <= i < 64 * row ==> #[trigger] p@[i] == checker_bytes()[i],
        decreases 16 - row,
    {
        let y = 15 - row;
        let mut x: usize = 0;
        while x < 16
            invariant
                row < 16,
                y == 15 - row,
                x <= 16,
                p@.len() == 64 * row + 4 * x,
                forall|i: int| 0 <= i < 64 * row + 4 * x ==> #[trigger] p@[i] == checker_bytes()[i],
            decreases 16 - x,
        {
            let (r, g, b) = if x < 8 && y < 8 {
                (255u8, 0u8, 0u8)
            } else if y < 8 {
                (0u8, 128u8, 0u8)
            } else if x < 8 {
                (0u8, 0u8, 255u8)
            } else {
                (255u8, 255u8, 0u8)
            };
            let ghost base = 64 * row + 4 * x;
            p.push(r);
            p.push(g);
            p.push(b);
            p.push(255);
            assert forall|i: int| 0 <= i < base + 4 implies #[trigger] p@[i] == checker_bytes()[i] by {
                if i >= base {
                    assert((i / 4) % 16 == x);
                    assert((i / 4) / 16 == row);
                }
            }
            x = x + 1;
        }
        row = row + 1;
    }
    assert(p@ =~= checker_bytes());
    p
}

/// How many parameters each extended example takes.
pub fn parameter_count(example: u32) -> (n: usize)
    ensures
        n == (if example == 78 {
            2usize
        } else if example == 79 || example == 81 || example == 91 {
            3usize
        } else if example == 82 || example == 83 || example == 88 || example == 95 {
            4usize
        } else if example == 85 {
            1usize
        } else if example == 87 {
            6usize
        } else {
            0usize
        }),
{
    if example == 78 {
        2
    } else if example == 79 || example == 81 || example == 91 {
        3
    } else if example == 82 || example == 83 || example == 88 || example == 95 {
        4
    } else if example == 85 {
        1
    } else if example == 87 {
        6
    } else {
        0
    }
}

/// The sprite example's output target must be (re)created: there is none yet, or its
/// width, height or sample count differ from the frame's.
pub fn needs_output(current: Option<(u32, u32, u32)>, frame: (u32, u32, u32)) -> (b: bool)
    ensures
        b == (current is None || current->Some_0 != frame),
{
    match current {
        None => true,
        Some(c) => c.0 != frame.0 || c.1 != frame.1 || c.2 != frame.2,
    }
}

} // verus!
