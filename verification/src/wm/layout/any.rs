//! One type for all layouts that come with the window manager, so that
//! tag sets with different layouts can stand in one tag stack.

use vstd::prelude::*;

use crate::wm::layout::monocle::Monocle;
use crate::wm::layout::stack::{HStack, VStack};
use crate::wm::layout::{Geometry, Layout, LayoutMessage, TilingArea};

verus! {

/// Any of the layouts that come with the window manager.
#[derive(Clone, Copy, Debug, PartialEq, Eq, Structural)]
pub enum AnyLayout {
    Monocle(Monocle),
    VStack(VStack),
    HStack(HStack),
}

impl Layout for AnyLayout {
    open spec fn placed(&self, count: nat, focused: nat, area: TilingArea, i: int) -> Option<Geometry> {
        match *self {
            AnyLayout::Monocle(l) => l.placed(count, focused, area, i),
            AnyLayout::VStack(l) => l.placed(count, focused, area, i),
            AnyLayout::HStack(l) => l.placed(count, focused, area, i),
        }
    }

    open spec fn right_of(&self, index: usize, max: usize) -> Option<usize> {
        match *self {
            AnyLayout::Monocle(l) => l.right_of(index, max),
            AnyLayout::VStack(l) => l.right_of(index, max),
            AnyLayout::HStack(l) => l.right_of(index, max),
        }
    }

    open spec fn left_of(&self, index: usize, max: usize) -> Option<usize> {
        match *self {
            AnyLayout::Monocle(l) => l.left_of(index, max),
            AnyLayout::VStack(l) => l.left_of(index, max),
            AnyLayout::HStack(l) => l.left_of(index, max),
        }
    }

    open spec fn above(&self, index: usize, max: usize) -> Option<usize> {
        match *self {
            AnyLayout::Monocle(l) => l.above(index, max),
            AnyLayout::VStack(l) => l.above(index, max),
            AnyLayout::HStack(l) => l.above(index, max),
        }
    }

    open spec fn below(&self, index: usize, max: usize) -> Option<usize> {
        match *self {
            AnyLayout::Monocle(l) => l.below(index, max),
            AnyLayout::VStack(l) => l.below(index, max),
            AnyLayout::HStack(l) => l.below(index, max),
        }
    }

    open spec fn edited(&self, message: LayoutMessage) -> Option<AnyLayout> {
        match *self {
            AnyLayout::Monocle(l) => match l.edited(message) {
                Some(e) => Some(AnyLayout::Monocle(e)),
                None => None,
            },
            AnyLayout::VStack(l) => match l.edited(message) {
                Some(e) => Some(AnyLayout::VStack(e)),
                None => None,
            },
            AnyLayout::HStack(l) => match l.edited(message) {
                Some(e) => Some(AnyLayout::HStack(e)),
                None => None,
            },
        }
    }

    proof fn lemma_arranged_valid(&self, count: nat, focused: nat, area: TilingArea) {
        match *self {
            AnyLayout::Monocle(l) => {
                l.lemma_arranged_valid(count, focused, area);
                assert(Seq::new(count, |i: int| self.placed(count, focused, area, i)) =~= Seq::new(
                    count,
                    |i: int| l.placed(count, focused, area, i),
                ));
            },
            AnyLayout::VStack(l) => {
                l.lemma_arranged_valid(count, focused, area);
                assert(Seq::new(count, |i: int| self.placed(count, focused, area, i)) =~= Seq::new(
                    count,
                    |i: int| l.placed(count, focused, area, i),
                ));
            },
            AnyLayout::HStack(l) => {
                l.lemma_arranged_valid(count, focused, area);
                assert(Seq::new(count, |i: int| self.placed(count, focused, area, i)) =~= Seq::new(
                    count,
                    |i: int| l.placed(count, focused, area, i),
                ));
            },
        }
    }

    proof fn lemma_neighbours_in_range(&self, index: usize, max: usize) {
        match *self {
            AnyLayout::Monocle(l) => l.lemma_neighbours_in_range(index, max),
            AnyLayout::VStack(l) => l.lemma_neighbours_in_range(index, max),
            AnyLayout::HStack(l) => l.lemma_neighbours_in_range(index, max),
        }
    }

    fn arrange(&self, count: usize, focused: usize, area: &TilingArea) -> (res: Vec<Option<Geometry>>) {
        let res = match self {
            AnyLayout::Monocle(l) => l.arrange(count, focused, area),
            AnyLayout::VStack(l) => l.arrange(count, focused, area),
            AnyLayout::HStack(l) => l.arrange(count, focused, area),
        };
        assert(res@ =~= Seq::new(
            count as nat,
            |i: int| self.placed(count as nat, focused as nat, *area, i),
        ));
        res
    }

    fn right_window(&self, index: usize, max: usize) -> (res: Option<usize>) {
        match self {
            AnyLayout::Monocle(l) => l.right_window(index, max),
            AnyLayout::VStack(l) => l.right_window(index, max),
            AnyLayout::HStack(l) => l.right_window(index, max),
        }
    }

    fn left_window(&self, index: usize, max: usize) -> (res: Option<usize>) {
        match self {
            AnyLayout::Monocle(l) => l.left_window(index, max),
            AnyLayout::VStack(l) => l.left_window(index, max),
            AnyLayout::HStack(l) => l.left_window(index, max),
        }
    }

    fn top_window(&self, index: usize, max: usize) -> (res: Option<usize>) {
        match self {
            AnyLayout::Monocle(l) => l.top_window(index, max),
            AnyLayout::VStack(l) => l.top_window(index, max),
            AnyLayout::HStack(l) => l.top_window(index, max),
        }
    }

    fn bottom_window(&self, index: usize, max: usize) -> (res: Option<usize>) {
        match self {
            AnyLayout::Monocle(l) => l.bottom_window(index, max),
            AnyLayout::VStack(l) => l.bottom_window(index, max),
            AnyLayout::HStack(l) => l.bottom_window(index, max),
        }
    }

    fn edit_layout(&mut self, message: LayoutMessage) -> (taken: bool) {
        match self {
            AnyLayout::Monocle(l) => l.edit_layout(message),
            AnyLayout::VStack(l) => l.edit_layout(message),
            AnyLayout::HStack(l) => l.edit_layout(message),
        }
    }
}

} // verus!
