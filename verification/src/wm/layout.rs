//! Layouts: rules that turn an ordered list of clients into rectangles.

use vstd::prelude::*;

pub mod any;
pub mod monocle;
pub mod stack;

verus! {

/// The axis along which a split arranges its children.
#[derive(Clone, Copy, Debug, PartialEq, Eq, Structural)]
pub enum SplitDirection {
    /// Children are placed next to each other, left to right.
    Horizontal,
    /// Children are placed on top of each other, top to bottom.
    Vertical,
}

/// The rectangle of a screen that windows are tiled in.
#[derive(Clone, Copy, Debug, PartialEq, Eq, Structural)]
pub struct TilingArea {
    /// x offset of the tiling area
    pub offset_x: u32,
    /// y offset of the tiling area
    pub offset_y: u32,
    /// width of the tiling area
    pub width: u32,
    /// height of the tiling area
    pub height: u32,
}

impl Default for TilingArea {
    fn default() -> (area: TilingArea)
        ensures
            area == (TilingArea { offset_x: 0, offset_y: 0, width: 0, height: 0 }),
    {
        TilingArea { offset_x: 0, offset_y: 0, width: 0, height: 0 }
    }
}

impl TilingArea {
    /// The far edges of the area are coordinates that 32 bits can hold.
    pub open spec fn fits(self) -> bool {
        self.offset_x + self.width <= u32::MAX && self.offset_y + self.height <= u32::MAX
    }

    /// Whether the far edges of the area are coordinates that 32 bits can hold.
    pub fn check_fits(&self) -> (res: bool)
        ensures
            res == self.fits(),
    {
        self.width <= u32::MAX - self.offset_x && self.height <= u32::MAX - self.offset_y
    }
}

/// The rectangle that a window is given.
#[derive(Clone, Copy, Debug, PartialEq, Eq, Structural)]
pub struct Geometry {
    /// x coordinate of the left edge
    pub x: u32,
    /// y coordinate of the upper edge
    pub y: u32,
    /// width of the window
    pub width: u32,
    /// height of the window
    pub height: u32,
}

/// A message that asks a layout to change one of its parameters.
#[derive(Clone, Copy, Debug, PartialEq, Eq, Structural)]
pub enum LayoutMessage {
    /// Change the share of the master window by so many percent points.
    MasterFactorRel(i8),
    /// Change the number of columns by so many.
    ColumnRel(i8),
}

/// The rectangle lies within the area.
pub open spec fn inside(g: Geometry, area: TilingArea) -> bool {
    &&& area.offset_x <= g.x
    &&& g.x + g.width <= area.offset_x + area.width
    &&& area.offset_y <= g.y
    &&& g.y + g.height <= area.offset_y + area.height
}

/// The two rectangles share no point of their interiors.
pub open spec fn apart(a: Geometry, b: Geometry) -> bool {
    ||| a.x + a.width <= b.x
    ||| b.x + b.width <= a.x
    ||| a.y + a.height <= b.y
    ||| b.y + b.height <= a.y
}

/// One entry for each client; the rectangles lie within the area and no
/// two of them overlap.
pub open spec fn valid_arrangement(geometries: Seq<Option<Geometry>>, count: nat, area: TilingArea) -> bool {
    &&& geometries.len() == count
    &&& forall|i: int|
        0 <= i < geometries.len() && geometries[i] is Some ==> inside(
            (#[trigger] geometries[i])->0,
            area,
        )
    &&& forall|i: int, j: int|
        0 <= i < j < geometries.len() && geometries[i] is Some && geometries[j] is Some ==> apart(
            (#[trigger] geometries[i])->0,
            (#[trigger] geometries[j])->0,
        )
}

/// An index among the clients `0..=max`, if the neighbour query gave one.
pub open spec fn in_range(res: Option<usize>, max: usize) -> bool {
    res matches Some(i) ==> i <= max
}

/// The rectangles that a layout gives to all clients.
pub open spec fn arranged<L: Layout>(layout: L, count: nat, focused: nat, area: TilingArea) -> Seq<
    Option<Geometry>,
> {
    Seq::new(count, |i: int| layout.placed(count, focused, area, i))
}

/// What a layout can do: place clients, name the neighbour of a client in
/// each direction, and take messages.
pub trait Layout: Sized {
    /// The rectangle of client `i` of `count`, `None` if it is not shown.
    spec fn placed(&self, count: nat, focused: nat, area: TilingArea, i: int) -> Option<Geometry>;

    /// The neighbour to the right of client `index` among clients `0..=max`.
    spec fn right_of(&self, index: usize, max: usize) -> Option<usize>;

    /// The neighbour to the left of client `index` among clients `0..=max`.
    spec fn left_of(&self, index: usize, max: usize) -> Option<usize>;

    /// The neighbour above client `index` among clients `0..=max`.
    spec fn above(&self, index: usize, max: usize) -> Option<usize>;

    /// The neighbour below client `index` among clients `0..=max`.
    spec fn below(&self, index: usize, max: usize) -> Option<usize>;

    /// The layout after a message that it takes; `None` for a message
    /// that is not meant for it.
    spec fn edited(&self, message: LayoutMessage) -> Option<Self>;

    /// Whatever the layout, its rectangles lie within the area and do not
    /// overlap.
    proof fn lemma_arranged_valid(&self, count: nat, focused: nat, area: TilingArea)
        requires
            area.fits(),
        ensures
            valid_arrangement(
                Seq::new(count, |i: int| self.placed(count, focused, area, i)),
                count,
                area,
            ),
    ;

    /// Whatever the layout, a neighbour is one of the clients.
    proof fn lemma_neighbours_in_range(&self, index: usize, max: usize)
        requires
            index <= max,
        ensures
            in_range(self.right_of(index, max), max),
            in_range(self.left_of(index, max), max),
            in_range(self.above(index, max), max),
            in_range(self.below(index, max), max),
    ;

    /// Places `count` clients, of which number `focused` has the focus, in
    /// the area.
    fn arrange(&self, count: usize, focused: usize, area: &TilingArea) -> (res: Vec<Option<Geometry>>)
        requires
            area.fits(),
        ensures
            res@ == Seq::new(
                count as nat,
                |i: int| self.placed(count as nat, focused as nat, *area, i),
            ),
    ;

    /// The neighbour to the right of client `index` among clients `0..=max`.
    fn right_window(&self, index: usize, max: usize) -> (res: Option<usize>)
        ensures
            res == self.right_of(index, max),
    ;

    /// The neighbour to the left of client `index` among clients `0..=max`.
    fn left_window(&self, index: usize, max: usize) -> (res: Option<usize>)
        ensures
            res == self.left_of(index, max),
    ;

    /// The neighbour above client `index` among clients `0..=max`.
    fn top_window(&self, index: usize, max: usize) -> (res: Option<usize>)
        ensures
            res == self.above(index, max),
    ;

    /// The neighbour below client `index` among clients `0..=max`.
    fn bottom_window(&self, index: usize, max: usize) -> (res: Option<usize>)
        ensures
            res == self.below(index, max),
    ;

    /// Hands a message to the layout and tells whether the layout took it.
    fn edit_layout(&mut self, message: LayoutMessage) -> (taken: bool)
        ensures
            taken == old(self).edited(message) is Some,
            *final(self) == (match old(self).edited(message) {
                Some(layout) => layout,
                None => *old(self),
            }),
    ;
}

} // verus!
