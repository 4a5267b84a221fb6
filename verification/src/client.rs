use vstd::prelude::*;

verus! {

/// A positioned, sized window ("client") to be put into reading order.
///
/// Coordinates live in one shared, already-normalized space; `x` and `y` may
/// be zero or negative, while well-formed clients have positive `w` and `h`.
#[derive(Clone, Copy, PartialEq, Eq, Structural, Debug)]
pub struct Client {
    /// Opaque identity, carried through the sort untouched.
    pub id: u64,
    /// Left edge.
    pub x: i32,
    /// Top edge.
    pub y: i32,
    /// Width.
    pub w: i32,
    /// Height.
    pub h: i32,
    /// Key of the owning monitor.
    pub monitor: i64,
    /// Key of the owning workspace (unique across monitors, never reused).
    pub workspace: i64,
}

/// The bottom edge of a client's rectangle.
pub open spec fn bot(c: Client) -> int {
    c.y + c.h
}

/// A well-formed client has positive extent in both directions.
pub open spec fn valid_client(c: Client) -> bool {
    c.w > 0 && c.h > 0
}

} // verus!
