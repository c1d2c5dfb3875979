//! Modifier masks of the X protocol, and the bits that chords ignore.

use vstd::prelude::*;

use crate::kbd::text::{lower, same_text_ignore_case};

verus! {

/// A set of X modifiers, one bit each.
pub type ModMask = u32;

/// The shift modifier.
pub const SHIFT: ModMask = 0x01;

/// The lock modifier: caps lock.
pub const LOCK: ModMask = 0x02;

/// The control modifier.
pub const CONTROL: ModMask = 0x04;

/// The first numbered modifier, commonly alt.
pub const MOD1: ModMask = 0x08;

/// The second numbered modifier, commonly num lock.
pub const MOD2: ModMask = 0x10;

/// The third numbered modifier, here scroll lock.
pub const MOD3: ModMask = 0x20;

/// The fourth numbered modifier, commonly super.
pub const MOD4: ModMask = 0x40;

/// The fifth numbered modifier, commonly the third level shift.
pub const MOD5: ModMask = 0x80;

/// The modifiers that no chord takes notice of: caps lock (`LOCK`), num
/// lock (`MOD2`) and scroll lock (`MOD3`).
pub const IGNORED: ModMask = 0x32;

/// The bit of the modifier that `word` names, in any mix of upper and
/// lower case.
pub open spec fn modifier_bit(word: Seq<char>) -> Option<ModMask> {
    let w = lower(word);
    if w == "shift"@ {
        Some(SHIFT)
    } else if w == "lock"@ {
        Some(LOCK)
    } else if w == "ctrl"@ || w == "control"@ {
        Some(CONTROL)
    } else if w == "mod1"@ {
        Some(MOD1)
    } else if w == "mod2"@ {
        Some(MOD2)
    } else if w == "mod3"@ {
        Some(MOD3)
    } else if w == "mod4"@ {
        Some(MOD4)
    } else if w == "mod5"@ {
        Some(MOD5)
    } else {
        None
    }
}

/// A mask without the ignored modifiers.
pub open spec fn significant(mask: ModMask) -> ModMask {
    mask & !IGNORED
}

/// Adds the modifiers of `add_mask` to `mask`.
pub fn combine(mask: &mut ModMask, add_mask: ModMask)
    ensures
        *final(mask) == *old(mask) | add_mask,
{
    *mask = *mask | add_mask;
}

/// The bit of the modifier that `desc` names.
pub fn lookup(desc: &str) -> (bit: Option<ModMask>)
    ensures
        bit == modifier_bit(desc@),
{
    if same_text_ignore_case(desc, "shift") {
        Some(SHIFT)
    } else if same_text_ignore_case(desc, "lock") {
        Some(LOCK)
    } else if same_text_ignore_case(desc, "ctrl") || same_text_ignore_case(desc, "control") {
        Some(CONTROL)
    } else if same_text_ignore_case(desc, "mod1") {
        Some(MOD1)
    } else if same_text_ignore_case(desc, "mod2") {
        Some(MOD2)
    } else if same_text_ignore_case(desc, "mod3") {
        Some(MOD3)
    } else if same_text_ignore_case(desc, "mod4") {
        Some(MOD4)
    } else if same_text_ignore_case(desc, "mod5") {
        Some(MOD5)
    } else {
        None
    }
}

/// Adds the modifier that `desc` names to `mask` and tells whether `desc`
/// names one; an unknown word leaves the mask as it is.
pub fn from_str(desc: &str, mask: &mut ModMask) -> (known: bool)
    ensures
        known == (modifier_bit(desc@) is Some),
        *final(mask) == (match modifier_bit(desc@) {
            Some(bit) => *old(mask) | bit,
            None => *old(mask),
        }),
{
    match lookup(desc) {
        Some(bit) => {
            *mask = *mask | bit;
            true
        },
        None => false,
    }
}

/// Clears the ignored modifiers in `mask`.
pub fn filter_ignore(mask: &mut ModMask)
    ensures
        *final(mask) == significant(*old(mask)),
{
    *mask = *mask & !IGNORED;
}

/// A mask that went through `filter_ignore` holds no ignored modifier, and
/// filtering it again changes nothing.
pub proof fn lemma_filter_idempotent(mask: ModMask)
    ensures
        significant(mask) & IGNORED == 0,
        significant(significant(mask)) == significant(mask),
{
    assert((mask & !0x32u32) & 0x32u32 == 0) by (bit_vector);
    assert((mask & !0x32u32) & !0x32u32 == mask & !0x32u32) by (bit_vector);
}

} // verus!
