//! What the window manager is asked to do, and what it is set up with.

use vstd::prelude::*;

use crate::kbd::desc::ModeSwitchDesc;
use crate::wm::layout::TilingArea;
use crate::wm::subset::Window;

verus! {

/// What a command asks the window manager to do once it has run.
#[derive(Clone, Copy, Debug, PartialEq, Eq, Structural)]
pub enum WmCommand {
    /// Nothing.
    NoCommand,
    /// Place the windows anew.
    Redraw,
    /// Give the input focus to a window.
    Focus(Window),
    /// Close a window.
    Kill(Window),
    /// Switch the input mode.
    ModeSwitch(ModeSwitchDesc),
    /// Leave the event loop.
    Quit,
}

/// The looks of the window manager: border colours as RGB triples, the
/// border width, and the tiling area of a screen nothing is known about.
#[derive(Clone, Copy, Debug)]
pub struct WmConfig {
    /// colour of the focused window's border
    pub f_color: (u16, u16, u16),
    /// colour of the other windows' borders
    pub u_color: (u16, u16, u16),
    /// width of the borders
    pub border_width: u8,
    /// the default tiling area
    pub screen: TilingArea,
}

} // verus!
