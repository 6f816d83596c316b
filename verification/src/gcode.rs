//! G-code text: the comments the loader strips, the commands it acts on and the positioning
//! modes those commands set.
use crate::bytes::{find_byte, find_byte_from, lemma_find_byte};
use vstd::prelude::*;

verus! {

/// A line with its comment removed: a carriage return at its end is set aside, and a `;`
/// followed by at least one more byte cuts the line there.
pub open spec fn uncommented(line: Seq<u8>) -> Seq<u8> {
    let cr = line.len() > 0 && line.last() == 0x0d;
    let body = if cr {
        line.drop_last()
    } else {
        line
    };
    let i = find_byte(body, 0, 0x3b);
    (if i + 1 < body.len() {
        body.subrange(0, i)
    } else {
        body
    }) + (if cr {
        seq![0x0du8]
    } else {
        Seq::<u8>::empty()
    })
}

/// The lines of `t` from `pos` on, each with its comment removed, joined by `\n` again.
pub open spec fn uncommented_from(t: Seq<u8>, pos: int) -> Seq<u8>
    decreases t.len() + 1 - pos,
{
    if 0 <= pos <= t.len() {
        proof {
            lemma_find_byte(t, pos, 0x0a);
        }
        if find_byte(t, pos, 0x0a) < t.len() {
            uncommented(t.subrange(pos, find_byte(t, pos, 0x0a))) + seq![0x0au8]
                + uncommented_from(t, find_byte(t, pos, 0x0a) + 1)
        } else {
            uncommented(t.subrange(pos, find_byte(t, pos, 0x0a)))
        }
    } else {
        Seq::empty()
    }
}

/// Appends `d[a..b]` to `out`.
fn extend_range(out: &mut Vec<u8>, d: &[u8], a: usize, b: usize)
    requires
        a <= b <= d.len(),
    ensures
        final(out)@ == old(out)@ + d@.subrange(a as int, b as int),
{
    let mut i = a;
    while i < b
        invariant
            a <= i <= b,
            b <= d.len(),
            out@ == old(out)@ + d@.subrange(a as int, i as int),
        decreases b - i,
    {
        out.push(d[i]);
        i = i + 1;
        assert(out@ =~= old(out)@ + d@.subrange(a as int, i as int));
    }
}

/// Appends the line `d[a..b]` without its comment.
fn push_uncommented(out: &mut Vec<u8>, d: &[u8], a: usize, b: usize)
    requires
        a <= b <= d.len(),
    ensures
        final(out)@ == old(out)@ + uncommented(d@.subrange(a as int, b as int)),
{
    let ghost line = d@.subrange(a as int, b as int);
    let cr = b > a && d[b - 1] == 0x0d;
    let end = if cr {
        b - 1
    } else {
        b
    };
    let ghost body = if cr {
        line.drop_last()
    } else {
        line
    };
    assert(body =~= d@.subrange(a as int, end as int));
    let i = find_byte_from(d, a, 0x3b);
    let cut = if i < end {
        i
    } else {
        end
    };
    proof {
        lemma_find_byte(d@, a as int, 0x3b);
        lemma_find_byte(body, 0, 0x3b);
        if i < end {
            assert(body[i - a] == 0x3b);
            assert forall|k: int| 0 <= k < i - a implies body[k] != 0x3b by {
                assert(body[k] == d@[a + k]);
            }
            assert(find_byte(body, 0, 0x3b) == i - a) by {
                let f = find_byte(body, 0, 0x3b);
                if f < i - a {
                    assert(body[f] == d@[a + f]);
                } else if f > i - a {
                    assert(body[i - a] != 0x3b);
                }
            }
        } else {
            assert forall|k: int| 0 <= k < body.len() implies body[k] != 0x3b by {
                assert(body[k] == d@[a + k]);
            }
            assert(find_byte(body, 0, 0x3b) == body.len()) by {
                let f = find_byte(body, 0, 0x3b);
                if f < body.len() {
                    assert(body[f] != 0x3b);
                }
            }
        }
    }
    let stop = if cut < end && end - cut > 1 {
        cut
    } else {
        end
    };
    extend_range(out, d, a, stop);
    if cr {
        out.push(0x0d);
    }
    proof {
        let kept = if (find_byte(body, 0, 0x3b) + 1 < body.len()) {
            body.subrange(0, find_byte(body, 0, 0x3b))
        } else {
            body
        };
        assert(kept =~= d@.subrange(a as int, stop as int));
    }
    assert(final(out)@ =~= old(out)@ + uncommented(line));
}

/// The text the G-code loader reads: every `;` comment that holds at least one character
/// removed from its line, carriage returns kept.
pub fn strip_gcode_comments(text: &[u8]) -> (r: Vec<u8>)
    ensures
        r@ == uncommented_from(text@, 0),
{
    let mut out: Vec<u8> = Vec::new();
    let mut pos: usize = 0;
    assert(out@ + uncommented_from(text@, 0) =~= uncommented_from(text@, 0));
    loop
        invariant
            pos <= text.len(),
            out@ + uncommented_from(text@, pos as int) == uncommented_from(text@, 0),
        decreases text.len() - pos,
    {
        let e = find_byte_from(text, pos, 0x0a);
        let ghost before = out@;
        push_uncommented(&mut out, text, pos, e);
        if e >= text.len() {
            assert(out@ =~= before + uncommented_from(text@, pos as int));
            return out;
        }
        out.push(0x0a);
        proof {
            let l = uncommented(text@.subrange(pos as int, e as int));
            vstd::seq_lib::lemma_concat_associative(
                before,
                l + seq![0x0au8],
                uncommented_from(text@, e + 1),
            );
            vstd::seq_lib::lemma_concat_associative(
                l,
                seq![0x0au8],
                uncommented_from(text@, e + 1),
            );
            assert(out@ =~= before + (l + seq![0x0au8]));
        }
        pos = e + 1;
    }
}

/// The commands the loader acts on; anything else is ignored.
#[derive(Clone, Copy, Debug, PartialEq, Eq)]
pub enum GcodeCommand {
    /// `G0` or `G1`: a move.
    Move,
    /// `G90`: absolute positions.
    Absolute,
    /// `G91`: relative positions.
    Relative,
    /// `M82`: absolute extrusion.
    ExtrusionAbsolute,
    /// `M83`: relative extrusion.
    ExtrusionRelative,
    /// `G92`: set the current position.
    SetPosition,
    /// Anything else.
    Other,
}

/// `b` is the ASCII letter `upper` in either case.
pub open spec fn letter_is(b: u8, upper: u8) -> bool {
    b == upper || b == upper + 32
}

/// The command a word names, compared after upper-casing: `G0`, `G1`, `G90`, `G91`,
/// `M82`, `M83` or `G92`.
pub open spec fn command_of(w: Seq<u8>) -> GcodeCommand {
    if w.len() == 2 && letter_is(w[0], 0x47) && (w[1] == 0x30 || w[1] == 0x31) {
        GcodeCommand::Move
    } else if w.len() == 3 && letter_is(w[0], 0x47) && w[1] == 0x39 && w[2] == 0x30 {
        GcodeCommand::Absolute
    } else if w.len() == 3 && letter_is(w[0], 0x47) && w[1] == 0x39 && w[2] == 0x31 {
        GcodeCommand::Relative
    } else if w.len() == 3 && letter_is(w[0], 0x4d) && w[1] == 0x38 && w[2] == 0x32 {
        GcodeCommand::ExtrusionAbsolute
    } else if w.len() == 3 && letter_is(w[0], 0x4d) && w[1] == 0x38 && w[2] == 0x33 {
        GcodeCommand::ExtrusionRelative
    } else if w.len() == 3 && letter_is(w[0], 0x47) && w[1] == 0x39 && w[2] == 0x32 {
        GcodeCommand::SetPosition
    } else {
        GcodeCommand::Other
    }
}

/// The command of a line: its text up to the first space.
pub open spec fn line_command(line: Seq<u8>) -> GcodeCommand {
    command_of(line.subrange(0, find_byte(line, 0, 0x20)))
}

/// Reads the command a line starts with.
pub fn gcode_command(line: &[u8]) -> (c: GcodeCommand)
    ensures
        c == line_command(line@),
{
    let n = find_byte_from(line, 0, 0x20);
    let ghost w = line@.subrange(0, n as int);
    let g = n > 0 && (line[0] == 0x47 || line[0] == 0x67);
    let m = n > 0 && (line[0] == 0x4d || line[0] == 0x6d);
    if n == 2 && g && (line[1] == 0x30 || line[1] == 0x31) {
        GcodeCommand::Move
    } else if n == 3 && g && line[1] == 0x39 && line[2] == 0x30 {
        GcodeCommand::Absolute
    } else if n == 3 && g && line[1] == 0x39 && line[2] == 0x31 {
        GcodeCommand::Relative
    } else if n == 3 && m && line[1] == 0x38 && line[2] == 0x32 {
        GcodeCommand::ExtrusionAbsolute
    } else if n == 3 && m && line[1] == 0x38 && line[2] == 0x33 {
        GcodeCommand::ExtrusionRelative
    } else if n == 3 && g && line[1] == 0x39 && line[2] == 0x32 {
        GcodeCommand::SetPosition
    } else {
        assert(n > 0 ==> w[0] == line@[0]);
        assert(n > 1 ==> w[1] == line@[1]);
        assert(n > 2 ==> w[2] == line@[2]);
        GcodeCommand::Other
    }
}

/// The loader's positioning modes: relative moves, and whether an `M82` or `M83` overrides
/// them for the extruder.
#[derive(Clone, Copy, Debug, PartialEq, Eq)]
pub struct GcodeModes {
    pub relative: bool,
    pub extrusion_override: bool,
    pub extrusion_relative: bool,
}

impl GcodeModes {
    /// Absolute positions, no extrusion override.
    pub fn new() -> (m: Self)
        ensures
            !m.relative && !m.extrusion_override && !m.extrusion_relative,
    {
        GcodeModes { relative: false, extrusion_override: false, extrusion_relative: false }
    }

    /// A command's effect on the modes: `G90` and `G91` set the positioning and drop the
    /// extrusion override, `M82` and `M83` set the override; others change nothing.
    pub fn apply(&mut self, c: GcodeCommand)
        ensures
            *final(self) == (match c {
                GcodeCommand::Absolute => GcodeModes {
                    relative: false,
                    extrusion_override: false,
                    ..*old(self)
                },
                GcodeCommand::Relative => GcodeModes {
                    relative: true,
                    extrusion_override: false,
                    ..*old(self)
                },
                GcodeCommand::ExtrusionAbsolute => GcodeModes {
                    extrusion_override: true,
                    extrusion_relative: false,
                    ..*old(self)
                },
                GcodeCommand::ExtrusionRelative => GcodeModes {
                    extrusion_override: true,
                    extrusion_relative: true,
                    ..*old(self)
                },
                _ => *old(self),
            }),
    {
        match c {
            GcodeCommand::Absolute => {
                self.relative = false;
                self.extrusion_override = false;
            },
            GcodeCommand::Relative => {
                self.relative = true;
                self.extrusion_override = false;
            },
            GcodeCommand::ExtrusionAbsolute => {
                self.extrusion_override = true;
                self.extrusion_relative = false;
            },
            GcodeCommand::ExtrusionRelative => {
                self.extrusion_override = true;
                self.extrusion_relative = true;
            },
            _ => {},
        }
    }

    /// Whether an `E` value is relative: the override's mode when one is set, the
    /// positioning mode otherwise.
    pub fn e_relative(&self) -> (r: bool)
        ensures
            r == if self.extrusion_override {
                self.extrusion_relative
            } else {
                self.relative
            },
    {
        if self.extrusion_override {
            self.extrusion_relative
        } else {
            self.relative
        }
    }
}

} // verus!
