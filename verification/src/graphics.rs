//! Identifiers and bulk transfers of the graphics interface.

use vstd::prelude::*;

verus! {

/// Number of bytes that one bulk read carries.
pub const BULK_READ_LEN: usize = 7936;

/// The identifier of a graphical object: 128 bits in four words.
#[derive(Debug, Copy, Clone, PartialEq, Eq, Hash)]
pub struct Gid {
    gid: [u32; 4],
}

impl Gid {
    /// The four words of the identifier.
    pub closed spec fn words(&self) -> [u32; 4] {
        self.gid
    }

    /// The identifier made of the words `id`.
    pub fn new(id: [u32; 4]) -> (g: Gid)
        ensures
            g.words() == id,
    {
        Gid { gid: id }
    }

    /// The words of the identifier.
    pub fn gid(&self) -> (id: [u32; 4])
        ensures
            id == self.words(),
    {
        self.gid
    }
}

/// A position on the screen.
#[derive(Debug, Copy, Clone, PartialEq, Eq)]
pub struct Point {
    /// Distance from the left edge.
    pub x: i16,
    /// Distance from the top edge.
    pub y: i16,
}

/// The colour of a pixel.
#[derive(Debug, Copy, Clone, PartialEq, Eq)]
pub enum PixelColor {
    /// A dark pixel.
    Dark,
    /// A light pixel.
    Light,
}

/// How a shape is drawn.
#[derive(Debug, Copy, Clone, PartialEq, Eq)]
pub struct DrawStyle {
    /// The colour of the inside, if it is filled.
    pub fill_color: Option<PixelColor>,
    /// The colour of the outline, if it is drawn.
    pub stroke_color: Option<PixelColor>,
    /// Width of the outline.
    pub stroke_width: i16,
}

/// A line between two points.
#[derive(Debug, Copy, Clone, PartialEq, Eq)]
pub struct Line {
    pub start: Point,
    pub end: Point,
    pub style: DrawStyle,
}

/// A circle around a point.
#[derive(Debug, Copy, Clone, PartialEq, Eq)]
pub struct Circle {
    pub center: Point,
    pub radius: i16,
    pub style: DrawStyle,
}

/// A rectangle between its top left and bottom right corners.
#[derive(Debug, Copy, Clone, PartialEq, Eq)]
pub struct Rectangle {
    pub tl: Point,
    pub br: Point,
    pub style: DrawStyle,
}

/// A rectangle with rounded corners.
#[derive(Debug, Copy, Clone, PartialEq, Eq)]
pub struct RoundedRectangle {
    pub border: Rectangle,
    pub radius: i16,
}

/// The shapes that can be drawn inside a clipping rectangle.
#[derive(Debug, Copy, Clone, PartialEq, Eq)]
pub enum ClipObjectType {
    /// A line.
    Line(Line),
    /// A circle.
    Circ(Circle),
    /// A rectangle.
    Rect(Rectangle),
    /// A rectangle with rounded corners.
    RoundRect(RoundedRectangle),
    /// A line that inverts the pixels under it.
    XorLine(Line),
}

/// A shape and the rectangle that it is clipped to.
#[derive(Debug, Copy, Clone, PartialEq, Eq)]
pub struct ClipObject {
    /// The clipping rectangle.
    pub clip: Rectangle,
    /// The shape.
    pub obj: ClipObjectType,
}

/// A claim of a token under a name.
#[derive(Debug, Clone, PartialEq, Eq)]
pub struct TokenClaim {
    /// The token, once it is granted.
    pub token: Option<[u32; 4]>,
    /// The name under which the token is claimed.
    pub name: String,
}

/// One transfer of a bulk read: a buffer, the offset that it was read
/// from, and the number of bytes that the read delivered.
#[derive(Debug, Copy, Clone)]
pub struct BulkRead {
    /// The bytes of the transfer.
    pub buf: [u8; 7936],
    /// The offset that the bytes were read from.
    pub from_offset: u32,
    /// Number of bytes that the read delivered.
    pub len: u32,
}

impl BulkRead {
    /// A transfer from offset 0 with a buffer of zeros, which counts as
    /// full.
    pub fn default() -> (b: BulkRead)
        ensures
            forall|i: int| 0 <= i < BULK_READ_LEN ==> b.buf@[i] == 0,
            b.from_offset == 0,
            b.len == BULK_READ_LEN,
    {
        BulkRead { buf: [0; 7936], from_offset: 0, len: 7936 }
    }
}

} // verus!
