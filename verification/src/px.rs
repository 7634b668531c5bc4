//! The pixel abstraction: the four supported sample layouts, their byte
//! form, and the exact integer form of the dissimilarity metric.

use vstd::prelude::*;

verus! {

/// The four supported sample layouts, identified by their channel count.
#[derive(Clone, Copy, PartialEq, Eq, Structural, Debug)]
pub enum PxKind {
    Gray,
    GrayA,
    Rgb,
    Rgba,
}

impl PxKind {
    /// Number of 8-bit channels of a sample of this kind.
    pub open spec fn channels(self) -> int {
        match self {
            PxKind::Gray => 1,
            PxKind::GrayA => 2,
            PxKind::Rgb => 3,
            PxKind::Rgba => 4,
        }
    }
}

/// One pixel sample: 1 to 4 unsigned 8-bit channels.
#[derive(Clone, Copy, PartialEq, Eq, Structural, Debug)]
pub enum Px {
    Gray(u8),
    GrayA(u8, u8),
    Rgb(u8, u8, u8),
    Rgba(u8, u8, u8, u8),
}

impl Px {
    pub open spec fn kind(self) -> PxKind {
        match self {
            Px::Gray(..) => PxKind::Gray,
            Px::GrayA(..) => PxKind::GrayA,
            Px::Rgb(..) => PxKind::Rgb,
            Px::Rgba(..) => PxKind::Rgba,
        }
    }

    /// The sample's layout.
    pub fn kind_of(&self) -> (r: PxKind)
        ensures
            r == self.kind(),
    {
        match self {
            Px::Gray(..) => PxKind::Gray,
            Px::GrayA(..) => PxKind::GrayA,
            Px::Rgb(..) => PxKind::Rgb,
            Px::Rgba(..) => PxKind::Rgba,
        }
    }

    /// The all-channels-zero sample of the given layout.
    pub open spec fn spec_zero(kind: PxKind) -> Px {
        match kind {
            PxKind::Gray => Px::Gray(0),
            PxKind::GrayA => Px::GrayA(0, 0),
            PxKind::Rgb => Px::Rgb(0, 0, 0),
            PxKind::Rgba => Px::Rgba(0, 0, 0, 0),
        }
    }

    pub fn zero(kind: PxKind) -> (r: Px)
        ensures
            r == Px::spec_zero(kind),
    {
        match kind {
            PxKind::Gray => Px::Gray(0),
            PxKind::GrayA => Px::GrayA(0, 0),
            PxKind::Rgb => Px::Rgb(0, 0, 0),
            PxKind::Rgba => Px::Rgba(0, 0, 0, 0),
        }
    }

    /// The sample's bytes in channel order.
    pub open spec fn bytes(self) -> Seq<u8> {
        match self {
            Px::Gray(g) => seq![g],
            Px::GrayA(g, a) => seq![g, a],
            Px::Rgb(r, g, b) => seq![r, g, b],
            Px::Rgba(r, g, b, a) => seq![r, g, b, a],
        }
    }

    /// Appends the sample's bytes, in channel order, to the stream.
    pub fn push_bytes(&self, out: &mut Vec<u8>)
        ensures
            final(out)@ == old(out)@ + self.bytes(),
    {
        match self {
            Px::Gray(g) => {
                out.push(*g);
            },
            Px::GrayA(g, a) => {
                out.push(*g);
                out.push(*a);
            },
            Px::Rgb(r, g, b) => {
                out.push(*r);
                out.push(*g);
                out.push(*b);
            },
            Px::Rgba(r, g, b, a) => {
                out.push(*r);
                out.push(*g);
                out.push(*b);
                out.push(*a);
            },
        }
        assert(out@ =~= old(out)@ + self.bytes());
    }

    /// Numerator of the dissimilarity metric between two samples of the same
    /// layout: the signed (not absolute) sum of per-channel differences.
    ///
    /// The metric itself is this sum divided by 255. Every use of the metric
    /// is a comparison against a threshold, so the library works throughout
    /// with the integer numerator, which keeps the comparison exact: for an
    /// integer sum `s`, `s / 255 <= 1/2` holds iff `s <= 127`.
    pub open spec fn spec_delta_num(self, other: Px) -> int {
        match (self, other) {
            (Px::Gray(a0), Px::Gray(b0)) => a0 - b0,
            (Px::GrayA(a0, a1), Px::GrayA(b0, b1)) => (a0 - b0) + (a1 - b1),
            (Px::Rgb(a0, a1, a2), Px::Rgb(b0, b1, b2)) => (a0 - b0) + (a1 - b1) + (a2 - b2),
            (Px::Rgba(a0, a1, a2, a3), Px::Rgba(b0, b1, b2, b3)) => (a0 - b0) + (a1 - b1) + (a2
                - b2) + (a3 - b3),
            _ => 0,
        }
    }

    pub fn delta_num(&self, other: &Px) -> (r: i32)
        requires
            self.kind() == other.kind(),
        ensures
            r == self.spec_delta_num(*other),
    {
        match (self, other) {
            (Px::Gray(a0), Px::Gray(b0)) => (*a0 as i32) - (*b0 as i32),
            (Px::GrayA(a0, a1), Px::GrayA(b0, b1)) => ((*a0 as i32) - (*b0 as i32)) + ((*a1
                as i32) - (*b1 as i32)),
            (Px::Rgb(a0, a1, a2), Px::Rgb(b0, b1, b2)) => ((*a0 as i32) - (*b0 as i32)) + ((*a1
                as i32) - (*b1 as i32)) + ((*a2 as i32) - (*b2 as i32)),
            (Px::Rgba(a0, a1, a2, a3), Px::Rgba(b0, b1, b2, b3)) => ((*a0 as i32) - (*b0 as i32))
                + ((*a1 as i32) - (*b1 as i32)) + ((*a2 as i32) - (*b2 as i32)) + ((*a3 as i32) - (
            *b3 as i32)),
            _ => 0,
        }
    }
}

} // verus!
