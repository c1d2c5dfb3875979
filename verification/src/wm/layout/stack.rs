//! The stack layouts: a master window beside a stack of the others.

use vstd::prelude::*;

use crate::wm::layout::{
    apart, inside, Geometry, Layout, LayoutMessage, TilingArea,
};

verus! {

/// A rectangle by its extent along the axis on which master and stack lie
/// side by side, and along the axis on which the stack is cut into bands.
pub struct Slot {
    pub main_offset: int,
    pub main_length: int,
    pub cross_offset: int,
    pub cross_length: int,
}

/// A percentage: a factor above one hundred counts as one hundred.
pub open spec fn percent(factor: u8) -> int {
    if factor > 100 {
        100
    } else {
        factor as int
    }
}

/// The length that the master gets of `length`.
pub open spec fn master_length(length: int, count: nat, factor: u8, fixed: bool) -> int {
    if count == 1 && !fixed {
        length
    } else {
        length * percent(factor) / 100
    }
}

/// The place of client `i` of `count` in a stack layout over the given
/// extents. Client 0 is the master and gets its share of the main axis, at
/// its start or, inverted, at its end; it gets all of it where it is alone
/// and the layout is not fixed. The others share the rest in equal bands
/// along the cross axis.
pub open spec fn stack_slot(
    count: nat,
    i: int,
    main_offset: int,
    main_length: int,
    cross_offset: int,
    cross_length: int,
    factor: u8,
    inverted: bool,
    fixed: bool,
) -> Slot {
    let master = master_length(main_length, count, factor, fixed);
    if i == 0 {
        Slot {
            main_offset: if inverted {
                main_offset + main_length - master
            } else {
                main_offset
            },
            main_length: master,
            cross_offset,
            cross_length,
        }
    } else {
        let band = cross_length / (count - 1);
        Slot {
            main_offset: if inverted {
                main_offset
            } else {
                main_offset + master
            },
            main_length: main_length - master,
            cross_offset: cross_offset + (i - 1) * band,
            cross_length: band,
        }
    }
}

/// The share of the master lies between nothing and all.
pub proof fn lemma_master_length(length: int, count: nat, factor: u8, fixed: bool)
    requires
        0 <= length,
    ensures
        0 <= master_length(length, count, factor, fixed) <= length,
{
    let p = percent(factor);
    assert(0 <= length * p / 100 <= length) by (nonlinear_arith)
        requires
            0 <= length,
            0 <= p <= 100,
    ;
}

/// The bands of the stack lie behind each other within the cross length.
pub proof fn lemma_bands(cross_length: int, n: int, i: int, j: int)
    requires
        0 <= cross_length,
        1 <= i <= j <= n,
    ensures
        0 <= cross_length / n,
        0 <= (i - 1) * (cross_length / n),
        (j - 1) * (cross_length / n) + cross_length / n <= cross_length,
        (i - 1) * (cross_length / n) + cross_length / n <= cross_length,
        i < j ==> (i - 1) * (cross_length / n) + cross_length / n <= (j - 1) * (cross_length / n),
{
    let band = cross_length / n;
    assert(0 <= band && n * band <= cross_length) by (nonlinear_arith)
        requires
            0 <= cross_length,
            1 <= n,
            band == cross_length / n,
    ;
    assert((j - 1) * band + band <= n * band) by (nonlinear_arith)
        requires
            j <= n,
            0 <= band,
    ;
    assert((i - 1) * band + band <= n * band) by (nonlinear_arith)
        requires
            i <= n,
            0 <= band,
    ;
    assert(0 <= (i - 1) * band) by (nonlinear_arith)
        requires
            1 <= i,
            0 <= band,
    ;
    if i < j {
        assert((i - 1) * band + band <= (j - 1) * band) by (nonlinear_arith)
            requires
                i < j,
                0 <= band,
        ;
    }
}

/// The neighbour of client `index` on the side of the master (`towards`)
/// or away from it, along the axis on which master and stack lie side by
/// side: the master's neighbour is the first of the stack, on the side
/// where the stack is; the neighbour of each of the stack is the master.
pub open spec fn across(index: usize, max: usize, stack_side: bool) -> Option<usize> {
    if index > max {
        None
    } else if stack_side {
        if index == 0 && max >= 1 {
            Some(1usize)
        } else {
            None
        }
    } else {
        if index >= 1 {
            Some(0usize)
        } else {
            None
        }
    }
}

/// The neighbour of client `index` within the stack: the one before it,
/// or the one after it.
pub open spec fn along(index: usize, max: usize, forward: bool) -> Option<usize> {
    if index > max {
        None
    } else if forward {
        if index >= 1 && index < max {
            Some((index + 1) as usize)
        } else {
            None
        }
    } else {
        if index >= 2 {
            Some((index - 1) as usize)
        } else {
            None
        }
    }
}

/// The neighbour across the line between master and stack.
fn step_across(index: usize, max: usize, stack_side: bool) -> (res: Option<usize>)
    ensures
        res == across(index, max, stack_side),
{
    if index > max {
        None
    } else if stack_side {
        if index == 0 && max >= 1 {
            Some(1)
        } else {
            None
        }
    } else {
        if index >= 1 {
            Some(0)
        } else {
            None
        }
    }
}

/// The neighbour within the stack.
fn step_along(index: usize, max: usize, forward: bool) -> (res: Option<usize>)
    ensures
        res == along(index, max, forward),
{
    if index > max {
        None
    } else if forward {
        if index >= 1 && index < max {
            Some(index + 1)
        } else {
            None
        }
    } else {
        if index >= 2 {
            Some(index - 1)
        } else {
            None
        }
    }
}

/// The master factor after a change by `delta` percent points, kept
/// between nothing and one hundred.
pub open spec fn shifted_factor(factor: u8, delta: i8) -> u8 {
    if percent(factor) + delta < 0 {
        0u8
    } else if percent(factor) + delta > 100 {
        100u8
    } else {
        (percent(factor) + delta) as u8
    }
}

/// The master factor after a change by `delta` percent points.
fn shift_factor(factor: u8, delta: i8) -> (res: u8)
    ensures
        res == shifted_factor(factor, delta),
{
    let capped: i16 = if factor > 100 {
        100
    } else {
        factor as i16
    };
    let moved: i16 = capped + (delta as i16);
    if moved < 0 {
        0
    } else if moved > 100 {
        100
    } else {
        moved as u8
    }
}

/// The extents of one client, as numbers that the machine holds.
struct Extents {
    main_offset: u32,
    main_length: u32,
    cross_offset: u32,
    cross_length: u32,
}

/// Computes the place of client `i` of `count`.
fn compute_slot(
    count: usize,
    i: usize,
    main_offset: u32,
    main_length: u32,
    cross_offset: u32,
    cross_length: u32,
    factor: u8,
    inverted: bool,
    fixed: bool,
) -> (res: Extents)
    requires
        i < count,
        main_offset + main_length <= u32::MAX,
        cross_offset + cross_length <= u32::MAX,
    ensures
        (Slot {
            main_offset: res.main_offset as int,
            main_length: res.main_length as int,
            cross_offset: res.cross_offset as int,
            cross_length: res.cross_length as int,
        }) == stack_slot(
            count as nat,
            i as int,
            main_offset as int,
            main_length as int,
            cross_offset as int,
            cross_length as int,
            factor,
            inverted,
            fixed,
        ),
{
    proof {
        lemma_master_length(main_length as int, count as nat, factor, fixed);
    }
    let capped: u64 = if factor > 100 {
        100
    } else {
        factor as u64
    };
    let master: u32 = if count == 1 && !fixed {
        main_length
    } else {
        assert((main_length as u64) * capped <= 0xffff_ffff * 100) by (nonlinear_arith)
            requires
                main_length <= 0xffff_ffff,
                capped <= 100,
        ;
        (((main_length as u64) * capped) / 100) as u32
    };
    if i == 0 {
        Extents {
            main_offset: if inverted {
                main_offset + (main_length - master)
            } else {
                main_offset
            },
            main_length: master,
            cross_offset,
            cross_length,
        }
    } else {
        let n: u64 = (count - 1) as u64;
        let band: u64 = (cross_length as u64) / n;
        proof {
            lemma_bands(cross_length as int, n as int, i as int, i as int);
        }
        assert(((i - 1) as u64) * band == (i - 1) * (cross_length as int / n as int));
        let before: u64 = ((i - 1) as u64) * band;
        Extents {
            main_offset: if inverted {
                main_offset
            } else {
                main_offset + master
            },
            main_length: main_length - master,
            cross_offset: cross_offset + (before as u32),
            cross_length: band as u32,
        }
    }
}

/// In a stack layout the slots lie within the given extents, and no two
/// of them overlap on both axes.
pub proof fn lemma_stack_slots(
    count: nat,
    i: int,
    j: int,
    main_offset: int,
    main_length: int,
    cross_offset: int,
    cross_length: int,
    factor: u8,
    inverted: bool,
    fixed: bool,
)
    requires
        0 <= i < j < count,
        0 <= main_length,
        0 <= cross_length,
    ensures
        ({
            let a = stack_slot(
                count,
                i,
                main_offset,
                main_length,
                cross_offset,
                cross_length,
                factor,
                inverted,
                fixed,
            );
            let b = stack_slot(
                count,
                j,
                main_offset,
                main_length,
                cross_offset,
                cross_length,
                factor,
                inverted,
                fixed,
            );
            ||| a.main_offset + a.main_length <= b.main_offset
            ||| b.main_offset + b.main_length <= a.main_offset
            ||| a.cross_offset + a.cross_length <= b.cross_offset
        }),
{
    lemma_master_length(main_length, count, factor, fixed);
    if i > 0 {
        lemma_bands(cross_length, count - 1, i, j);
    }
}

/// In a stack layout every slot lies within the given extents.
pub proof fn lemma_stack_slot_inside(
    count: nat,
    i: int,
    main_offset: int,
    main_length: int,
    cross_offset: int,
    cross_length: int,
    factor: u8,
    inverted: bool,
    fixed: bool,
)
    requires
        0 <= i < count,
        0 <= main_length,
        0 <= cross_length,
    ensures
        ({
            let a = stack_slot(
                count,
                i,
                main_offset,
                main_length,
                cross_offset,
                cross_length,
                factor,
                inverted,
                fixed,
            );
            &&& main_offset <= a.main_offset
            &&& 0 <= a.main_length
            &&& a.main_offset + a.main_length <= main_offset + main_length
            &&& cross_offset <= a.cross_offset
            &&& 0 <= a.cross_length
            &&& a.cross_offset + a.cross_length <= cross_offset + cross_length
        }),
{
    lemma_master_length(main_length, count, factor, fixed);
    if i > 0 {
        lemma_bands(cross_length, count - 1, i, i);
    }
}

/// A master window on one side, the other windows stacked on top of each
/// other on the other side.
#[derive(Clone, Copy, Debug, PartialEq, Eq, Structural)]
pub struct VStack {
    /// percentage of screen width taken by the master window area
    pub master_factor: u8,
    /// place the stack on the left
    pub inverted: bool,
    /// keep the master at its share of the width where it is alone
    pub fixed: bool,
}

impl Default for VStack {
    fn default() -> (layout: VStack)
        ensures
            layout == (VStack { master_factor: 50, inverted: false, fixed: false }),
    {
        VStack { master_factor: 50, inverted: false, fixed: false }
    }
}

impl VStack {
    /// The slot of client `i`: master and stack lie side by side along x.
    pub open spec fn slot(&self, count: nat, area: TilingArea, i: int) -> Slot {
        stack_slot(
            count,
            i,
            area.offset_x as int,
            area.width as int,
            area.offset_y as int,
            area.height as int,
            self.master_factor,
            self.inverted,
            self.fixed,
        )
    }
}

impl Layout for VStack {
    open spec fn placed(&self, count: nat, focused: nat, area: TilingArea, i: int) -> Option<Geometry> {
        let s = self.slot(count, area, i);
        Some(
            Geometry {
                x: s.main_offset as u32,
                y: s.cross_offset as u32,
                width: s.main_length as u32,
                height: s.cross_length as u32,
            },
        )
    }

    open spec fn right_of(&self, index: usize, max: usize) -> Option<usize> {
        across(index, max, !self.inverted)
    }

    open spec fn left_of(&self, index: usize, max: usize) -> Option<usize> {
        across(index, max, self.inverted)
    }

    open spec fn above(&self, index: usize, max: usize) -> Option<usize> {
        along(index, max, false)
    }

    open spec fn below(&self, index: usize, max: usize) -> Option<usize> {
        along(index, max, true)
    }

    open spec fn edited(&self, message: LayoutMessage) -> Option<VStack> {
        match message {
            LayoutMessage::MasterFactorRel(delta) => Some(
                VStack {
                    master_factor: shifted_factor(self.master_factor, delta),
                    inverted: self.inverted,
                    fixed: self.fixed,
                },
            ),
            LayoutMessage::ColumnRel(_) => None,
        }
    }

    proof fn lemma_arranged_valid(&self, count: nat, focused: nat, area: TilingArea) {
        let all = Seq::new(count, |i: int| self.placed(count, focused, area, i));
        assert forall|i: int| 0 <= i < all.len() && all[i] is Some implies inside(
            (#[trigger] all[i])->0,
            area,
        ) by {
            lemma_stack_slot_inside(
                count,
                i,
                area.offset_x as int,
                area.width as int,
                area.offset_y as int,
                area.height as int,
                self.master_factor,
                self.inverted,
                self.fixed,
            );
        }
        assert forall|i: int, j: int|
            0 <= i < j < all.len() && all[i] is Some && all[j] is Some implies apart(
            (#[trigger] all[i])->0,
            (#[trigger] all[j])->0,
        ) by {
            lemma_stack_slot_inside(
                count,
                i,
                area.offset_x as int,
                area.width as int,
                area.offset_y as int,
                area.height as int,
                self.master_factor,
                self.inverted,
                self.fixed,
            );
            lemma_stack_slot_inside(
                count,
                j,
                area.offset_x as int,
                area.width as int,
                area.offset_y as int,
                area.height as int,
                self.master_factor,
                self.inverted,
                self.fixed,
            );
            lemma_stack_slots(
                count,
                i,
                j,
                area.offset_x as int,
                area.width as int,
                area.offset_y as int,
                area.height as int,
                self.master_factor,
                self.inverted,
                self.fixed,
            );
        }
    }

    proof fn lemma_neighbours_in_range(&self, index: usize, max: usize) {
    }

    fn arrange(&self, count: usize, focused: usize, area: &TilingArea) -> (res: Vec<Option<Geometry>>) {
        let mut res: Vec<Option<Geometry>> = Vec::new();
        let mut i: usize = 0;
        while i < count
            invariant
                i <= count,
                area.fits(),
                res@.len() == i,
                forall|k: int| 0 <= k < i ==> res@[k] == self.placed(count as nat, focused as nat, *area, k),
            decreases count - i,
        {
            let e = compute_slot(
                count,
                i,
                area.offset_x,
                area.width,
                area.offset_y,
                area.height,
                self.master_factor,
                self.inverted,
                self.fixed,
            );
            res.push(
                Some(
                    Geometry {
                        x: e.main_offset,
                        y: e.cross_offset,
                        width: e.main_length,
                        height: e.cross_length,
                    },
                ),
            );
            i = i + 1;
        }
        assert(res@ =~= Seq::new(
            count as nat,
            |i: int| self.placed(count as nat, focused as nat, *area, i),
        ));
        res
    }

    fn right_window(&self, index: usize, max: usize) -> (res: Option<usize>) {
        step_across(index, max, !self.inverted)
    }

    fn left_window(&self, index: usize, max: usize) -> (res: Option<usize>) {
        step_across(index, max, self.inverted)
    }

    fn top_window(&self, index: usize, max: usize) -> (res: Option<usize>) {
        step_along(index, max, false)
    }

    fn bottom_window(&self, index: usize, max: usize) -> (res: Option<usize>) {
        step_along(index, max, true)
    }

    fn edit_layout(&mut self, message: LayoutMessage) -> (taken: bool) {
        match message {
            LayoutMessage::MasterFactorRel(delta) => {
                self.master_factor = shift_factor(self.master_factor, delta);
                true
            },
            LayoutMessage::ColumnRel(_) => false,
        }
    }
}

/// A master window on top or at the bottom, the other windows next to
/// each other on the other side.
#[derive(Clone, Copy, Debug, PartialEq, Eq, Structural)]
pub struct HStack {
    /// percentage of screen height taken by the master window area
    pub master_factor: u8,
    /// place the stack on top
    pub inverted: bool,
    /// keep the master at its share of the height where it is alone
    pub fixed: bool,
}

impl Default for HStack {
    fn default() -> (layout: HStack)
        ensures
            layout == (HStack { master_factor: 50, inverted: false, fixed: false }),
    {
        HStack { master_factor: 50, inverted: false, fixed: false }
    }
}

impl HStack {
    /// The slot of client `i`: master and stack lie side by side along y.
    pub open spec fn slot(&self, count: nat, area: TilingArea, i: int) -> Slot {
        stack_slot(
            count,
            i,
            area.offset_y as int,
            area.height as int,
            area.offset_x as int,
            area.width as int,
            self.master_factor,
            self.inverted,
            self.fixed,
        )
    }
}

impl Layout for HStack {
    open spec fn placed(&self, count: nat, focused: nat, area: TilingArea, i: int) -> Option<Geometry> {
        let s = self.slot(count, area, i);
        Some(
            Geometry {
                x: s.cross_offset as u32,
                y: s.main_offset as u32,
                width: s.cross_length as u32,
                height: s.main_length as u32,
            },
        )
    }

    open spec fn right_of(&self, index: usize, max: usize) -> Option<usize> {
        along(index, max, true)
    }

    open spec fn left_of(&self, index: usize, max: usize) -> Option<usize> {
        along(index, max, false)
    }

    open spec fn above(&self, index: usize, max: usize) -> Option<usize> {
        across(index, max, self.inverted)
    }

    open spec fn below(&self, index: usize, max: usize) -> Option<usize> {
        across(index, max, !self.inverted)
    }

    open spec fn edited(&self, message: LayoutMessage) -> Option<HStack> {
        match message {
            LayoutMessage::MasterFactorRel(delta) => Some(
                HStack {
                    master_factor: shifted_factor(self.master_factor, delta),
                    inverted: self.inverted,
                    fixed: self.fixed,
                },
            ),
            LayoutMessage::ColumnRel(_) => None,
        }
    }

    proof fn lemma_arranged_valid(&self, count: nat, focused: nat, area: TilingArea) {
        let all = Seq::new(count, |i: int| self.placed(count, focused, area, i));
        assert forall|i: int| 0 <= i < all.len() && all[i] is Some implies inside(
            (#[trigger] all[i])->0,
            area,
        ) by {
            lemma_stack_slot_inside(
                count,
                i,
                area.offset_y as int,
                area.height as int,
                area.offset_x as int,
                area.width as int,
                self.master_factor,
                self.inverted,
                self.fixed,
            );
        }
        assert forall|i: int, j: int|
            0 <= i < j < all.len() && all[i] is Some && all[j] is Some implies apart(
            (#[trigger] all[i])->0,
            (#[trigger] all[j])->0,
        ) by {
            lemma_stack_slot_inside(
                count,
                i,
                area.offset_y as int,
                area.height as int,
                area.offset_x as int,
                area.width as int,
                self.master_factor,
                self.inverted,
                self.fixed,
            );
            lemma_stack_slot_inside(
                count,
                j,
                area.offset_y as int,
                area.height as int,
                area.offset_x as int,
                area.width as int,
                self.master_factor,
                self.inverted,
                self.fixed,
            );
            lemma_stack_slots(
                count,
                i,
                j,
                area.offset_y as int,
                area.height as int,
                area.offset_x as int,
                area.width as int,
                self.master_factor,
                self.inverted,
                self.fixed,
            );
        }
    }

    proof fn lemma_neighbours_in_range(&self, index: usize, max: usize) {
    }

    fn arrange(&self, count: usize, focused: usize, area: &TilingArea) -> (res: Vec<Option<Geometry>>) {
        let mut res: Vec<Option<Geometry>> = Vec::new();
        let mut i: usize = 0;
        while i < count
            invariant
                i <= count,
                area.fits(),
                res@.len() == i,
                forall|k: int| 0 <= k < i ==> res@[k] == self.placed(count as nat, focused as nat, *area, k),
            decreases count - i,
        {
            let e = compute_slot(
                count,
                i,
                area.offset_y,
                area.height,
                area.offset_x,
                area.width,
                self.master_factor,
                self.inverted,
                self.fixed,
            );
            res.push(
                Some(
                    Geometry {
                        x: e.cross_offset,
                        y: e.main_offset,
                        width: e.cross_length,
                        height: e.main_length,
                    },
                ),
            );
            i = i + 1;
        }
        assert(res@ =~= Seq::new(
            count as nat,
            |i: int| self.placed(count as nat, focused as nat, *area, i),
        ));
        res
    }

    fn right_window(&self, index: usize, max: usize) -> (res: Option<usize>) {
        step_along(index, max, true)
    }

    fn left_window(&self, index: usize, max: usize) -> (res: Option<usize>) {
        step_along(index, max, false)
    }

    fn top_window(&self, index: usize, max: usize) -> (res: Option<usize>) {
        step_across(index, max, self.inverted)
    }

    fn bottom_window(&self, index: usize, max: usize) -> (res: Option<usize>) {
        step_across(index, max, !self.inverted)
    }

    fn edit_layout(&mut self, message: LayoutMessage) -> (taken: bool) {
        match message {
            LayoutMessage::MasterFactorRel(delta) => {
                self.master_factor = shift_factor(self.master_factor, delta);
                true
            },
            LayoutMessage::ColumnRel(_) => false,
        }
    }
}

} // verus!
