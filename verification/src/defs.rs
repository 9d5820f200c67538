//! Plain value types shared by the whole layout core: surface identifiers,
//! positions, sizes, vectors, areas, output descriptions and the capability
//! through which the core tells the surface provider about new sizes.

use vstd::prelude::*;

verus! {

/// Identifier of a displayed surface.  The value `0` is the sentinel for
/// "no surface": only leaf frames carry a valid identifier.
#[derive(Clone, Copy, PartialEq, Eq, Structural, Debug)]
pub struct SurfaceId {
    pub value: u64,
}

impl SurfaceId {
    /// True when the identifier denotes a real surface.
    pub open spec fn spec_is_valid(self) -> bool {
        self.value != 0
    }

    pub fn new(value: u64) -> (r: SurfaceId)
        ensures
            r.value == value,
    {
        SurfaceId { value }
    }

    /// The sentinel identifier carried by every non-leaf frame.
    pub fn invalid() -> (r: SurfaceId)
        ensures
            r.value == 0,
            !r.spec_is_valid(),
    {
        SurfaceId { value: 0 }
    }

    pub fn is_valid(&self) -> (r: bool)
        ensures
            r == self.spec_is_valid(),
    {
        self.value != 0
    }
}

/// A point in the coordinate system of the enclosing frame.
#[derive(Clone, Copy, PartialEq, Eq, Structural, Debug)]
pub struct Position {
    pub x: i64,
    pub y: i64,
}

/// A translation between two positions.
#[derive(Clone, Copy, PartialEq, Eq, Structural, Debug)]
pub struct Vector {
    pub x: i64,
    pub y: i64,
}

/// Extent of a frame or surface.
#[derive(Clone, Copy, PartialEq, Eq, Structural, Debug)]
pub struct Size {
    pub width: u32,
    pub height: u32,
}

/// A rectangle: position of its top-left corner and its size.
#[derive(Clone, Copy, PartialEq, Eq, Structural, Debug)]
pub struct Area {
    pub pos: Position,
    pub size: Size,
}

impl Position {
    pub fn new(x: i64, y: i64) -> (r: Position)
        ensures
            r == (Position { x, y }),
    {
        Position { x, y }
    }

    /// Translation by `v`, component-wise with two's-complement wrap-around.
    pub open spec fn spec_moved(self, v: Vector) -> Position {
        Position { x: self.x.wrapping_add(v.x), y: self.y.wrapping_add(v.y) }
    }

    /// The vector leading from `other` to `self`, with wrap-around.
    pub open spec fn spec_minus(self, other: Position) -> Vector {
        Vector { x: self.x.wrapping_sub(other.x), y: self.y.wrapping_sub(other.y) }
    }

    pub fn moved(&self, v: &Vector) -> (r: Position)
        ensures
            r == self.spec_moved(*v),
    {
        Position { x: self.x.wrapping_add(v.x), y: self.y.wrapping_add(v.y) }
    }

    pub fn minus(&self, other: &Position) -> (r: Vector)
        ensures
            r == self.spec_minus(*other),
    {
        Vector { x: self.x.wrapping_sub(other.x), y: self.y.wrapping_sub(other.y) }
    }

    /// The vector that moves this position onto the origin.
    pub open spec fn spec_to_origin(self) -> Vector {
        Vector { x: (0i64).wrapping_sub(self.x), y: (0i64).wrapping_sub(self.y) }
    }

    pub fn to_origin(&self) -> (r: Vector)
        ensures
            r == self.spec_to_origin(),
    {
        Vector { x: (0i64).wrapping_sub(self.x), y: (0i64).wrapping_sub(self.y) }
    }
}

impl Vector {
    pub fn new(x: i64, y: i64) -> (r: Vector)
        ensures
            r == (Vector { x, y }),
    {
        Vector { x, y }
    }

    /// The inverse translation, with wrap-around.
    pub open spec fn spec_opposite(self) -> Vector {
        Vector { x: (0i64).wrapping_sub(self.x), y: (0i64).wrapping_sub(self.y) }
    }

    pub fn opposite(&self) -> (r: Vector)
        ensures
            r == self.spec_opposite(),
    {
        Vector { x: (0i64).wrapping_sub(self.x), y: (0i64).wrapping_sub(self.y) }
    }
}

impl Size {
    pub fn new(width: u32, height: u32) -> (r: Size)
        ensures
            r == (Size { width, height }),
    {
        Size { width, height }
    }
}

impl Area {
    pub fn new(pos: Position, size: Size) -> (r: Area)
        ensures
            r == (Area { pos, size }),
    {
        Area { pos, size }
    }
}

/// Round trip of a wrapped translation: moving by `v` and then by the
/// opposite of `v` restores the original position, for every position and
/// every vector, overflow included.
pub proof fn lemma_move_round_trip(p: Position, v: Vector)
    ensures
        p.spec_moved(v).spec_moved(v.spec_opposite()) == p,
{
    let q = p.spec_moved(v);
    let w = v.spec_opposite();
    assert(q.x.wrapping_add(w.x) == p.x);
    assert(q.y.wrapping_add(w.y) == p.y);
}

/// Description of one display output as the output provider reports it.
pub struct OutputInfo {
    pub id: u32,
    pub area: Area,
    pub physical_size: Size,
    pub refresh_rate: u32,
    pub make: String,
    pub model: String,
}

impl OutputInfo {
    pub fn new(
        id: u32,
        area: Area,
        physical_size: Size,
        refresh_rate: u32,
        make: String,
        model: String,
    ) -> (r: OutputInfo)
        ensures
            r.id == id,
            r.area == area,
            r.physical_size == physical_size,
            r.refresh_rate == refresh_rate,
            r.make == make,
            r.model == model,
    {
        OutputInfo { id, area, physical_size, refresh_rate, make, model }
    }
}

/// Capability towards the surface provider.  The provider is outside the
/// core; the call is advisory and fire-and-forget, so the core only records
/// the notifications it owes, in the order it emits them.
pub struct SurfaceAccess {
    /// Every `reconfigure` emitted so far, oldest first.
    pub log: Vec<(SurfaceId, Size)>,
}

impl SurfaceAccess {
    pub fn new() -> (r: SurfaceAccess)
        ensures
            r.log@.len() == 0,
    {
        SurfaceAccess { log: Vec::new() }
    }

    /// Tell the provider that surface `sid` should take size `size`.
    pub fn reconfigure(&mut self, sid: SurfaceId, size: Size)
        ensures
            final(self).log@ == old(self).log@.push((sid, size)),
    {
        self.log.push((sid, size));
    }

    /// The size a surface last took, as far as the notifications show: the
    /// newest entry for `sid`, or an empty size before any notification.
    pub open spec fn spec_last_size(log: Seq<(SurfaceId, Size)>, sid: SurfaceId) -> Size
        decreases log.len(),
    {
        if log.len() == 0 {
            Size { width: 0, height: 0 }
        } else if log.last().0 == sid {
            log.last().1
        } else {
            Self::spec_last_size(log.drop_last(), sid)
        }
    }

    /// Advisory size of a surface: what the provider was last told.
    pub fn get_size(&self, sid: SurfaceId) -> (r: Size)
        ensures
            r == Self::spec_last_size(self.log@, sid),
    {
        let mut i: usize = self.log.len();
        proof {
            assert(self.log@.take(self.log@.len() as int) =~= self.log@);
        }
        while i > 0
            invariant
                i <= self.log@.len(),
                Self::spec_last_size(self.log@, sid) == Self::spec_last_size(
                    self.log@.take(i as int),
                    sid,
                ),
            decreases i,
        {
            proof {
                assert(self.log@.take(i as int).last() == self.log@[i as int - 1]);
                assert(self.log@.take(i as int).drop_last() =~= self.log@.take(i as int - 1));
            }
            if self.log[i - 1].0.value == sid.value {
                return self.log[i - 1].1;
            }
            i = i - 1;
        }
        proof {
            assert(self.log@.take(0) =~= Seq::<(SurfaceId, Size)>::empty());
        }
        Size { width: 0, height: 0 }
    }
}

} // verus!
