//! The line that tells the user which tag sets are on show.

use vstd::prelude::*;
use vstd::string::*;

use crate::wm::client::ClientSet;
use crate::wm::config::Tag;
use crate::wm::layout::Layout;
use crate::wm::screen::{Crtc, Screen, ScreenSet};
use crate::wm::tagset::{tagset_text, write_tags};

verus! {

/// The text for one screen: its current tag set, or `[]` where it shows
/// none, and a `*` where some of its tags are hidden.
pub open spec fn screen_text<L: Layout>(screen: Screen<L>) -> Seq<char> {
    (match screen.tag_stack@.current() {
        Some(tagset) => tagset_text(tagset.tags.ordered()),
        None => "[]"@,
    }) + (if screen.tag_stack@.hidden != Set::<Tag>::empty() {
        "*"@
    } else {
        Seq::<char>::empty()
    })
}

/// The texts of the first `k` screens, one after the other.
pub open spec fn screens_text<L: Layout>(screens: Seq<(Crtc, Screen<L>)>, k: nat) -> Seq<char>
    decreases k,
{
    if k == 0 {
        Seq::empty()
    } else {
        screens_text(screens, (k - 1) as nat) + screen_text(screens[k - 1].1)
    }
}

/// Helper function to get the current tagset from a `TagStack`: the
/// current tag sets of all screens, in the order of the screens.
///
/// Takes two arguments to allow for usage where commands are set up.
pub fn current_tagset<L: Layout>(_clients: &ClientSet, s: &ScreenSet<L>) -> (res: String)
    ensures
        res@ == screens_text(s@.screens, s@.screens.len()),
{
    let screens = s.screens();
    let mut res = String::new();
    let mut k: usize = 0;
    assert(res@ =~= screens_text(screens@, 0));
    while k < screens.len()
        invariant
            k <= screens@.len(),
            res@ == screens_text(screens@, k as nat),
        decreases screens@.len() - k,
    {
        let screen = &screens[k].1;
        let ghost before = res@;
        match screen.tag_stack.current() {
            Some(tagset) => {
                write_tags(&tagset.tags, &mut res);
            },
            None => {
                res.append("[]");
            },
        }
        if !screen.tag_stack.get_hidden().is_empty() {
            res.append("*");
        }
        proof {
            assert(res@ =~= before + screen_text(screens@[k as int].1));
        }
        k = k + 1;
    }
    res
}

} // verus!
