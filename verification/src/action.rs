//! Compact fixed-width move encoding.
//!
//! A move is packed into a `u16` so that actions are cheap to copy, compare
//! and use as lookup keys without heap allocation:
//!
//! - bit 13: set on the "no move" (pass) action;
//! - bit 12: set when exactly half of the source army moves;
//! - bits 10-11: direction code (0 = left, 1 = up, 2 = right, 3 = down);
//! - bits 5-9: source row (y), 5 bits;
//! - bits 0-4: source column (x), 5 bits.
//!
//! The destination is derived by adding the direction's unit offset to the
//! source, so boards up to 32 x 32 are supported in this packed form.

use vstd::prelude::*;

verus! {

/// One candidate move: either the pass action or an adjacent army movement.
#[derive(Clone, Copy, PartialEq, Eq, Structural, Debug)]
pub struct Action(pub u16);

impl Action {
    /// The encoded action marks "no move".
    pub open spec fn spec_is_empty(self) -> bool {
        (self.0 / 0x2000) % 2 == 1
    }

    /// The encoded action moves half of the source army instead of all but one.
    pub open spec fn spec_is_half(self) -> bool {
        (self.0 / 0x1000) % 2 == 1
    }

    /// Direction code of the move: 0 = left, 1 = up, 2 = right, 3 = down.
    pub open spec fn spec_dir(self) -> u16 {
        (self.0 / 0x400) % 4
    }

    /// Source column.
    pub open spec fn spec_src_x(self) -> u16 {
        self.0 % 32
    }

    /// Source row.
    pub open spec fn spec_src_y(self) -> u16 {
        (self.0 / 32) % 32
    }

    /// Horizontal unit offset of the direction.
    pub open spec fn spec_dx(self) -> int {
        if self.spec_dir() == 0 {
            -1
        } else if self.spec_dir() == 2 {
            1
        } else {
            0
        }
    }

    /// Vertical unit offset of the direction.
    pub open spec fn spec_dy(self) -> int {
        if self.spec_dir() == 1 {
            -1
        } else if self.spec_dir() == 3 {
            1
        } else {
            0
        }
    }

    /// Destination column, derived from the source and the direction.
    pub open spec fn spec_dst_x(self) -> int {
        self.spec_src_x() + self.spec_dx()
    }

    /// Destination row, derived from the source and the direction.
    pub open spec fn spec_dst_y(self) -> int {
        self.spec_src_y() + self.spec_dy()
    }

    /// The pass action: no army is moved this turn.
    pub fn empty() -> (a: Action)
        ensures
            a.spec_is_empty(),
    {
        Action(0x2000)
    }

    /// Packs a concrete movement into the compact encoding.
    pub fn make(half: bool, dir: u16, src_x: u16, src_y: u16) -> (a: Action)
        requires
            dir < 4,
            src_x < 32,
            src_y < 32,
        ensures
            !a.spec_is_empty(),
            a.spec_is_half() == half,
            a.spec_dir() == dir,
            a.spec_src_x() == src_x,
            a.spec_src_y() == src_y,
            a.0 < 0x2000,
    {
        let h: u16 = if half {
            0x1000
        } else {
            0
        };
        let v: u16 = h + dir * 0x400 + src_y * 32 + src_x;
        proof {
            assert((v / 0x2000) % 2 == 0 && (v / 0x1000) % 2 == (if half {
                1int
            } else {
                0int
            }) && (v / 0x400) % 4 == dir && v % 32 == src_x && (v / 32) % 32 == src_y && v < 0x2000)
                by (nonlinear_arith)
                requires
                    v == (if half {
                        0x1000int
                    } else {
                        0int
                    }) + dir * 0x400 + src_y * 32 + src_x,
                    dir < 4,
                    src_x < 32,
                    src_y < 32,
            ;
        }
        Action(v)
    }

    /// Concrete (non-pass) encodings are canonical: two of them with the
    /// same half flag, direction and source coordinates are the same value.
    pub proof fn lemma_encoding_unique(a: Action, b: Action)
        requires
            a.0 < 0x2000,
            b.0 < 0x2000,
            a.spec_is_half() == b.spec_is_half(),
            a.spec_dir() == b.spec_dir(),
            a.spec_src_x() == b.spec_src_x(),
            a.spec_src_y() == b.spec_src_y(),
        ensures
            a == b,
    {
        let x = a.0;
        let y = b.0;
        assert(x == y) by (bit_vector)
            requires
                x < 0x2000,
                y < 0x2000,
                (x / 0x1000) % 2 == (y / 0x1000) % 2,
                (x / 0x400) % 4 == (y / 0x400) % 4,
                x % 32 == y % 32,
                (x / 32) % 32 == (y / 32) % 32,
        ;
    }

    /// True on the pass action.
    pub fn is_empty(&self) -> (r: bool)
        ensures
            r == self.spec_is_empty(),
    {
        (self.0 / 0x2000) % 2 == 1
    }

    /// True when the move takes half of the source army.
    pub fn is_half(&self) -> (r: bool)
        ensures
            r == self.spec_is_half(),
    {
        (self.0 / 0x1000) % 2 == 1
    }

    /// Direction code of the move.
    pub fn dir(&self) -> (r: u16)
        ensures
            r == self.spec_dir(),
    {
        (self.0 / 0x400) % 4
    }

    /// Source column.
    pub fn src_x(&self) -> (r: usize)
        ensures
            r == self.spec_src_x(),
    {
        (self.0 % 32) as usize
    }

    /// Source row.
    pub fn src_y(&self) -> (r: usize)
        ensures
            r == self.spec_src_y(),
    {
        ((self.0 / 32) % 32) as usize
    }

    /// Destination column; the move must not step off the left edge.
    pub fn dst_x(&self) -> (r: usize)
        requires
            0 <= self.spec_dst_x(),
        ensures
            r == self.spec_dst_x(),
    {
        let x = (self.0 % 32) as usize;
        let d = (self.0 / 0x400) % 4;
        if d == 0 {
            x - 1
        } else if d == 2 {
            x + 1
        } else {
            x
        }
    }

    /// Destination row; the move must not step off the top edge.
    pub fn dst_y(&self) -> (r: usize)
        requires
            0 <= self.spec_dst_y(),
        ensures
            r == self.spec_dst_y(),
    {
        let y = ((self.0 / 32) % 32) as usize;
        let d = (self.0 / 0x400) % 4;
        if d == 1 {
            y - 1
        } else if d == 3 {
            y + 1
        } else {
            y
        }
    }
}

} // verus!
