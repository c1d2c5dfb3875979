//! The monocle layout: one window at a time, over the whole area.

use vstd::prelude::*;

use crate::wm::layout::{Geometry, Layout, LayoutMessage, TilingArea};

verus! {

/// Shows the focused client over the whole area and none of the others.
#[derive(Clone, Copy, Debug, PartialEq, Eq, Structural)]
pub struct Monocle {}

impl Default for Monocle {
    fn default() -> (layout: Monocle) {
        Monocle {  }
    }
}

/// The whole area as a window rectangle.
pub open spec fn whole(area: TilingArea) -> Geometry {
    Geometry { x: area.offset_x, y: area.offset_y, width: area.width, height: area.height }
}

impl Layout for Monocle {
    open spec fn placed(&self, count: nat, focused: nat, area: TilingArea, i: int) -> Option<Geometry> {
        if i == focused {
            Some(whole(area))
        } else {
            None
        }
    }

    open spec fn right_of(&self, index: usize, max: usize) -> Option<usize> {
        None
    }

    open spec fn left_of(&self, index: usize, max: usize) -> Option<usize> {
        None
    }

    open spec fn above(&self, index: usize, max: usize) -> Option<usize> {
        None
    }

    open spec fn below(&self, index: usize, max: usize) -> Option<usize> {
        None
    }

    open spec fn edited(&self, message: LayoutMessage) -> Option<Monocle> {
        None
    }

    proof fn lemma_arranged_valid(&self, count: nat, focused: nat, area: TilingArea) {
    }

    proof fn lemma_neighbours_in_range(&self, index: usize, max: usize) {
    }

    fn arrange(&self, count: usize, focused: usize, area: &TilingArea) -> (res: Vec<Option<Geometry>>) {
        let mut res: Vec<Option<Geometry>> = Vec::new();
        let mut i: usize = 0;
        while i < count
            invariant
                i <= count,
                res@.len() == i,
                forall|k: int| 0 <= k < i ==> res@[k] == self.placed(count as nat, focused as nat, *area, k),
            decreases count - i,
        {
            if i == focused {
                res.push(
                    Some(
                        Geometry {
                            x: area.offset_x,
                            y: area.offset_y,
                            width: area.width,
                            height: area.height,
                        },
                    ),
                );
            } else {
                res.push(None);
            }
            i = i + 1;
        }
        assert(res@ =~= Seq::new(
            count as nat,
            |i: int| self.placed(count as nat, focused as nat, *area, i),
        ));
        res
    }

    fn right_window(&self, index: usize, max: usize) -> (res: Option<usize>) {
        None
    }

    fn left_window(&self, index: usize, max: usize) -> (res: Option<usize>) {
        None
    }

    fn top_window(&self, index: usize, max: usize) -> (res: Option<usize>) {
        None
    }

    fn bottom_window(&self, index: usize, max: usize) -> (res: Option<usize>) {
        None
    }

    fn edit_layout(&mut self, message: LayoutMessage) -> (taken: bool) {
        false
    }
}

} // verus!
