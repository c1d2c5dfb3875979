//! Screens: rectangular outputs, each with its own tag stack.

use vstd::prelude::*;

use crate::wm::layout::{Layout, TilingArea};
use crate::wm::tagset::TagStack;
use crate::wm::util::{backwards, lemma_backwards_push, reverse};

verus! {

/// The id of a CRTC, the part of the display hardware that drives an output.
pub type Crtc = u32;

/// The rotation bit of a CRTC turned by 90 degrees.
pub const ROTATION_ROTATE_90: u16 = 2;

/// The rotation bit of a CRTC turned by 270 degrees.
pub const ROTATION_ROTATE_270: u16 = 8;

/// What the display reports when the configuration of a CRTC changes.
#[derive(Clone, Copy, Debug, PartialEq, Eq, Structural)]
pub struct CrtcChange {
    /// the CRTC that changed
    pub crtc: Crtc,
    /// x position of its upper left corner
    pub x: i16,
    /// y position of its upper left corner
    pub y: i16,
    /// its width
    pub width: u16,
    /// its height
    pub height: u16,
    /// its rotation and reflection, one bit each
    pub rotation: u16,
}

/// A signed position as the unsigned number with the same 32-bit pattern.
pub open spec fn as_offset(position: i16) -> u32 {
    if position < 0 {
        (position + 0x1_0000_0000) as u32
    } else {
        position as u32
    }
}

/// Whether the rotation turns width into height.
pub open spec fn turned(rotation: u16) -> bool {
    rotation & 10 != 0
}

/// A signed position as the unsigned number with the same 32-bit pattern.
fn offset_of(position: i16) -> (res: u32)
    ensures
        res == as_offset(position),
{
    if position < 0 {
        (0x1_0000_0000i64 + (position as i64)) as u32
    } else {
        position as u32
    }
}

/// The area with its axes exchanged.
pub open spec fn swapped(area: TilingArea) -> TilingArea {
    TilingArea {
        offset_x: area.offset_y,
        offset_y: area.offset_x,
        width: area.height,
        height: area.width,
    }
}

/// The area that a CRTC change describes.
pub open spec fn area_of(change: CrtcChange) -> TilingArea {
    let plain = TilingArea {
        offset_x: as_offset(change.x),
        offset_y: as_offset(change.y),
        width: change.width as u32,
        height: change.height as u32,
    };
    if turned(change.rotation) {
        swapped(plain)
    } else {
        plain
    }
}

/// A rectangular screen area displaying a `TagStack`.
pub struct Screen<L: Layout> {
    /// the tiling area associated with the screen
    pub area: TilingArea,
    /// the tag stack associated with the screen
    pub tag_stack: TagStack<L>,
    /// the top neighbour, if any
    pub top: Option<Crtc>,
    /// the right neighbour, if any
    pub right: Option<Crtc>,
    /// the bottom neighbour, if any
    pub bottom: Option<Crtc>,
    /// the left neighbour, if any
    pub left: Option<Crtc>,
}

impl<L: Layout> Default for Screen<L> {
    fn default() -> (screen: Screen<L>)
        ensures
            screen.area == (TilingArea { offset_x: 0, offset_y: 0, width: 0, height: 0 }),
            screen.tag_stack.wf(),
            screen.tag_stack@.history.len() == 0,
            screen.tag_stack@.tagsets.dom() == Set::<u8>::empty(),
            screen.top is None && screen.right is None && screen.bottom is None
                && screen.left is None,
    {
        Screen {
            area: TilingArea::default(),
            tag_stack: TagStack::default(),
            top: None,
            right: None,
            bottom: None,
            left: None,
        }
    }
}

impl<L: Layout> Screen<L> {
    /// Build a new screen.
    pub fn new(area: TilingArea, tag_stack: TagStack<L>) -> (screen: Screen<L>)
        ensures
            screen.area == area,
            screen.tag_stack == tag_stack,
            screen.top is None && screen.right is None && screen.bottom is None
                && screen.left is None,
    {
        Screen { area, tag_stack, top: None, right: None, bottom: None, left: None }
    }

    /// The screen over another area.
    pub open spec fn with_area(self, area: TilingArea) -> Screen<L> {
        Screen { area, ..self }
    }

    /// Swap a screen's x and y axis.
    pub fn swap_dimensions(&mut self)
        ensures
            *final(self) == old(self).with_area(swapped(old(self).area)),
    {
        let area = self.area;
        self.area = TilingArea {
            offset_x: area.offset_y,
            offset_y: area.offset_x,
            width: area.height,
            height: area.width,
        };
    }
}

/// The value of a screen set.
pub struct ScreenSetView<L: Layout> {
    /// the screens and their CRTCs, in order
    pub screens: Seq<(Crtc, Screen<L>)>,
    /// the index of the active screen
    pub current: usize,
}

/// Screen number `k` is the first of the given CRTC.
pub open spec fn first_of<L: Layout>(screens: Seq<(Crtc, Screen<L>)>, crtc: Crtc, k: int) -> bool {
    &&& 0 <= k < screens.len()
    &&& screens[k].0 == crtc
    &&& forall|j: int| 0 <= j < k ==> screens[j].0 != crtc
}

/// Some screen is of the given CRTC.
pub open spec fn known<L: Layout>(screens: Seq<(Crtc, Screen<L>)>, crtc: Crtc) -> bool {
    exists|k: int| 0 <= k < screens.len() && (#[trigger] screens[k]).0 == crtc
}

/// A screen as it is made for a CRTC not seen before: no tagsets, no
/// history, no neighbours.
pub open spec fn fresh<L: Layout>(screen: Screen<L>) -> bool {
    &&& screen.tag_stack.wf()
    &&& screen.tag_stack@.history.len() == 0
    &&& screen.tag_stack@.tagsets.dom() == Set::<u8>::empty()
    &&& screen.top is None
    &&& screen.right is None
    &&& screen.bottom is None
    &&& screen.left is None
}

/// What a CRTC change makes of the screens: the first screen of the CRTC
/// takes the reported area, or, where there is none, a fresh screen with
/// that area joins the screens as the last.
pub open spec fn updated<L: Layout>(
    before: Seq<(Crtc, Screen<L>)>,
    after: Seq<(Crtc, Screen<L>)>,
    change: CrtcChange,
) -> bool {
    if known(before, change.crtc) {
        exists|k: int|
            first_of(before, change.crtc, k) && after == before.update(
                k,
                (change.crtc, before[k].1.with_area(area_of(change))),
            )
    } else {
        &&& after.len() == before.len() + 1
        &&& after.drop_last() == before
        &&& after.last().0 == change.crtc
        &&& after.last().1.area == area_of(change)
        &&& fresh(after.last().1)
    }
}

/// Every screen with its axes exchanged.
pub open spec fn rotated<L: Layout>(screens: Seq<(Crtc, Screen<L>)>) -> Seq<(Crtc, Screen<L>)> {
    Seq::new(screens.len(), |k: int| (screens[k].0, screens[k].1.with_area(swapped(screens[k].1.area))))
}

/// The screens without those of the given CRTC, the rest in order.
pub open spec fn without_crtc<L: Layout>(screens: Seq<(Crtc, Screen<L>)>, crtc: Crtc) -> Seq<(Crtc, Screen<L>)> {
    screens.filter(|s: (Crtc, Screen<L>)| s.0 != crtc)
}

/// Filtering a list filters its first item and then the rest.
proof fn lemma_without_crtc_front<L: Layout>(screens: Seq<(Crtc, Screen<L>)>, crtc: Crtc)
    requires
        screens.len() > 0,
    ensures
        without_crtc(screens, crtc) == (if screens[0].0 != crtc {
            seq![screens[0]] + without_crtc(screens.drop_first(), crtc)
        } else {
            without_crtc(screens.drop_first(), crtc)
        }),
    decreases screens.len(),
{
    reveal_with_fuel(Seq::filter, 2);
    if screens.len() == 1 {
        assert(screens.drop_last() =~= screens.drop_first());
        assert(without_crtc(screens, crtc) =~= (if screens[0].0 != crtc {
            seq![screens[0]] + without_crtc(screens.drop_first(), crtc)
        } else {
            without_crtc(screens.drop_first(), crtc)
        }));
    } else {
        let front = screens.drop_last();
        lemma_without_crtc_front(front, crtc);
        assert(front.drop_first() =~= screens.drop_first().drop_last());
        assert(screens.drop_first().last() == screens.last());
        assert(without_crtc(screens, crtc) =~= (if screens[0].0 != crtc {
            seq![screens[0]] + without_crtc(screens.drop_first(), crtc)
        } else {
            without_crtc(screens.drop_first(), crtc)
        }));
    }
}

/// Filtering changes nothing where no screen is of the CRTC.
proof fn lemma_without_crtc_none<L: Layout>(screens: Seq<(Crtc, Screen<L>)>, crtc: Crtc)
    requires
        forall|k: int| 0 <= k < screens.len() ==> (#[trigger] screens[k]).0 != crtc,
    ensures
        without_crtc(screens, crtc) == screens,
    decreases screens.len(),
{
    reveal_with_fuel(Seq::filter, 2);
    if screens.len() > 0 {
        lemma_without_crtc_none(screens.drop_last(), crtc);
        assert(screens.drop_last().push(screens.last()) =~= screens);
    } else {
        assert(without_crtc(screens, crtc) =~= screens);
    }
}

impl<L: Layout> ScreenSetView<L> {
    /// There is an active screen.
    pub open spec fn wf(self) -> bool {
        self.current < self.screens.len()
    }

    /// The active screen.
    pub open spec fn current_screen(self) -> Screen<L> {
        self.screens[self.current as int].1
    }
}

/// An ordered set of known screens.
///
/// A screen is a rectangular area on the X server screen's root window,
/// that is used to show a distinct set of tags associated with a
/// `TagStack`. There is an active screen at all times.
pub struct ScreenSet<L: Layout> {
    /// all screens known to man, and their associated CRTCs
    screens: Vec<(Crtc, Screen<L>)>,
    /// the currently active screen's index
    current_screen: usize,
}

impl<L: Layout> View for ScreenSet<L> {
    type V = ScreenSetView<L>;

    closed spec fn view(&self) -> ScreenSetView<L> {
        ScreenSetView { screens: self.screens@, current: self.current_screen }
    }
}

impl<L: Layout> ScreenSet<L> {
    /// The invariant of a screen set that has a screen: the active index
    /// names one.
    pub open spec fn wf(&self) -> bool {
        self@.wf()
    }

    /// Setup a new screen set; there is none without a screen.
    pub fn new(screens: Vec<(Crtc, Screen<L>)>) -> (res: Option<ScreenSet<L>>)
        ensures
            match res {
                Some(set) => screens@.len() > 0 && set@.screens == screens@ && set@.current == 0
                    && set.wf(),
                None => screens@.len() == 0,
            },
    {
        if screens.len() > 0 {
            Some(ScreenSet { screens, current_screen: 0 })
        } else {
            None
        }
    }

    /// Get an immutable reference to the set of screens.
    pub fn screens(&self) -> (res: &[(Crtc, Screen<L>)])
        ensures
            res@ == self@.screens,
    {
        self.screens.as_slice()
    }

    /// Get a mutable reference to current screen's geometry and tag stack.
    pub fn current_mut(&mut self) -> (res: &mut Screen<L>)
        requires
            old(self).wf(),
        ensures
            *res == old(self)@.current_screen(),
            final(self)@.current == old(self)@.current,
            final(self)@.screens == old(self)@.screens.update(
                old(self)@.current as int,
                (old(self)@.screens[old(self)@.current as int].0, *final(res)),
            ),
    {
        &mut self.screens[self.current_screen].1
    }

    /// Get an immutable reference to current screen's geometry and tag stack.
    pub fn current(&self) -> (res: &Screen<L>)
        requires
            self.wf(),
        ensures
            *res == self@.current_screen(),
    {
        &self.screens[self.current_screen].1
    }

    /// Get an immutable reference to current screen's geometry.
    pub fn screen(&self) -> (res: &TilingArea)
        requires
            self.wf(),
        ensures
            *res == self@.current_screen().area,
    {
        &self.current().area
    }

    /// Get a mutable reference to the current screen's tag stack.
    pub fn tag_stack_mut(&mut self) -> (res: &mut TagStack<L>)
        requires
            old(self).wf(),
        ensures
            *res == old(self)@.current_screen().tag_stack,
            final(self)@.current == old(self)@.current,
            final(self)@.screens == old(self)@.screens.update(
                old(self)@.current as int,
                (
                    old(self)@.screens[old(self)@.current as int].0,
                    Screen { tag_stack: *final(res), ..old(self)@.current_screen() },
                ),
            ),
    {
        &mut self.screens[self.current_screen].1.tag_stack
    }

    /// Get an immutable reference to the current screen's tag stack.
    pub fn tag_stack(&self) -> (res: &TagStack<L>)
        requires
            self.wf(),
        ensures
            *res == self@.current_screen().tag_stack,
    {
        &self.current().tag_stack
    }

    /// Get a mutable reference to the set of screens.
    pub fn screens_mut(&mut self) -> (res: &mut Vec<(Crtc, Screen<L>)>)
        ensures
            res@ == old(self)@.screens,
            final(self)@.screens == final(res)@,
            final(self)@.current == old(self)@.current,
    {
        &mut self.screens
    }

    /// Swap horizontal and vertical axes of all screens.
    pub fn rotate(&mut self)
        ensures
            final(self)@.screens == rotated(old(self)@.screens),
            final(self)@.current == old(self)@.current,
    {
        let ghost before = self.screens@;
        let mut i: usize = 0;
        while i < self.screens.len()
            invariant
                i <= self.screens@.len(),
                self.screens@.len() == before.len(),
                self.current_screen == old(self).current_screen,
                forall|k: int| 0 <= k < i ==> self.screens@[k] == rotated(before)[k],
                forall|k: int| i <= k < before.len() ==> self.screens@[k] == before[k],
            decreases self.screens@.len() - i,
        {
            let screen = &mut self.screens[i].1;
            screen.swap_dimensions();
            i = i + 1;
        }
        assert(self.screens@ =~= rotated(before));
    }

    /// Select a screen by altering the current screen's index: `f` gets
    /// the index of the active screen and the number of screens, and what
    /// it returns becomes the active index if it names a screen.
    pub fn change_screen<T: Fn(usize, usize) -> usize>(&mut self, f: T) -> (changed: bool)
        requires
            call_requires(f, (old(self)@.current, old(self)@.screens.len() as usize)),
        ensures
            final(self)@.screens == old(self)@.screens,
            exists|new: usize|
                {
                    &&& #[trigger] call_ensures(
                        f,
                        (old(self)@.current, old(self)@.screens.len() as usize),
                        new,
                    )
                    &&& changed == (new < old(self)@.screens.len())
                    &&& final(self)@.current == (if changed {
                        new
                    } else {
                        old(self)@.current
                    })
                },
            old(self).wf() ==> final(self).wf(),
    {
        let len = self.screens.len();
        let new = f(self.current_screen, len);
        if new < len {
            self.current_screen = new;
            true
        } else {
            false
        }
    }

    /// Remove a CRTC from our list of screens and return whether a redraw is
    /// necessary, which it is where the active screen was of that CRTC.
    /// Where a screen goes, the first of those that stay becomes the
    /// active one.
    pub fn remove(&mut self, old_crtc: Crtc) -> (redraw: bool)
        requires
            old(self).wf(),
        ensures
            final(self)@.screens == without_crtc(old(self)@.screens, old_crtc),
            redraw == (old(self)@.screens[old(self)@.current as int].0 == old_crtc),
            final(self)@.current == (if known(old(self)@.screens, old_crtc) {
                0
            } else {
                old(self)@.current
            }),
            final(self)@.screens.len() > 0 ==> final(self).wf(),
    {
        let redraw = self.screens[self.current_screen].0 == old_crtc;
        let ghost before = self.screens@;
        let mut kept: Vec<(Crtc, Screen<L>)> = Vec::new();
        let mut found = false;
        while self.screens.len() > 0
            invariant
                self.screens@.len() <= before.len(),
                self.screens@ == before.take(self.screens@.len() as int),
                self.current_screen == old(self).current_screen,
                found == exists|k: int|
                    self.screens@.len() <= k < before.len() && (#[trigger] before[k]).0
                        == old_crtc,
                backwards(kept@) == without_crtc(before.skip(self.screens@.len() as int), old_crtc),
            decreases self.screens.len(),
        {
            let entry = self.screens.pop().unwrap();
            let ghost n = self.screens@.len() as int;
            proof {
                assert(self.screens@ =~= before.take(n));
                assert(before.skip(n) =~= seq![before[n]] + before.skip(n + 1));
                lemma_without_crtc_front(before.skip(n), old_crtc);
                assert(before.skip(n).drop_first() =~= before.skip(n + 1));
            }
            if entry.0 != old_crtc {
                let ghost before_kept = kept@;
                kept.push(entry);
                proof {
                    lemma_backwards_push(before_kept, entry);
                }
            } else {
                found = true;
            }
        }
        proof {
            assert(before.skip(0) =~= before);
        }
        reverse(&mut kept);
        self.screens = kept;
        if found {
            self.current_screen = 0;
        }
        proof {
            if !found {
                assert forall|k: int| 0 <= k < before.len() implies (#[trigger] before[k]).0
                    != old_crtc by {}
                lemma_without_crtc_none(before, old_crtc);
            }
        }
        redraw
    }

    /// Update a screen associated with a CRTC or create one if none is present.
    pub fn update(&mut self, change: &CrtcChange)
        ensures
            final(self)@.current == old(self)@.current,
            updated(old(self)@.screens, final(self)@.screens, *change),
            old(self).wf() ==> final(self).wf(),
    {
        let current_crtc = change.crtc;
        let ghost before = self.screens@;
        let mut at: usize = 0;
        while at < self.screens.len() && self.screens[at].0 != current_crtc
            invariant
                at <= self.screens@.len(),
                self.screens@ == before,
                forall|j: int| 0 <= j < at ==> before[j].0 != current_crtc,
            decreases self.screens@.len() - at,
        {
            at = at + 1;
        }
        if at == self.screens.len() {
            self.screens.push((current_crtc, Screen::default()));
        }
        let plain = TilingArea {
            offset_x: offset_of(change.x),
            offset_y: offset_of(change.y),
            width: change.width as u32,
            height: change.height as u32,
        };
        let screen = &mut self.screens[at].1;
        screen.area = plain;
        if change.rotation & (ROTATION_ROTATE_90 | ROTATION_ROTATE_270) != 0 {
            screen.swap_dimensions();
        }
        proof {
            assert(2u16 | 8u16 == 10u16) by (bit_vector);
            if known(before, current_crtc) {
                assert(first_of(before, current_crtc, at as int));
                assert(self.screens@ =~= before.update(
                    at as int,
                    (current_crtc, before[at as int].1.with_area(area_of(*change))),
                ));
            } else {
                assert(self.screens@.drop_last() =~= before);
            }
        }
    }

    /// Apply a screen matching to all screens (that is, CRTCs) that we know of:
    /// the matching is called once for each screen, in order, with the
    /// screen, its CRTC and its position, and each screen is left as the
    /// matching leaves it. The CRTCs, their order and the active index stay.
    pub fn run_matching<M: Fn(&mut Screen<L>, Crtc, usize)>(&mut self, matching: &M)
        requires
            forall|s: &mut Screen<L>, c: Crtc, i: usize| call_requires(matching, (s, c, i)),
        ensures
            final(self)@.current == old(self)@.current,
            final(self)@.screens.len() == old(self)@.screens.len(),
            forall|k: int|
                0 <= k < old(self)@.screens.len() ==> (#[trigger] final(self)@.screens[k]).0 == old(
                    self,
                )@.screens[k].0 && exists|s: &mut Screen<L>|
                    *s == old(self)@.screens[k].1 && *final(s) == final(self)@.screens[k].1
                        && #[trigger] call_ensures(
                        matching,
                        (s, old(self)@.screens[k].0, k as usize),
                        (),
                    ),
    {
        let ghost before = self.screens@;
        let mut i: usize = 0;
        while i < self.screens.len()
            invariant
                i <= self.screens@.len(),
                self.screens@.len() == before.len(),
                self.current_screen == old(self).current_screen,
                forall|k: int|
                    0 <= k < i ==> (#[trigger] self.screens@[k]).0 == before[k].0
                        && exists|s: &mut Screen<L>|
                        *s == before[k].1 && *final(s) == self.screens@[k].1
                            && #[trigger] call_ensures(matching, (s, before[k].0, k as usize), ()),
                forall|k: int| i <= k < before.len() ==> self.screens@[k] == before[k],
                forall|s: &mut Screen<L>, c: Crtc, i: usize| call_requires(matching, (s, c, i)),
            decreases self.screens@.len() - i,
        {
            let crtc = self.screens[i].0;
            let screen = &mut self.screens[i].1;
            matching(screen, crtc, i);
            proof {
                assert(exists|s: &mut Screen<L>|
                    *s == before[i as int].1 && *final(s) == self.screens@[i as int].1
                        && #[trigger] call_ensures(matching, (s, crtc, i), ()));
            }
            i = i + 1;
        }
    }
}

} // verus!
