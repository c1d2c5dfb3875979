//! Descriptions of chords, chains, commands and modes.

use std::cmp::Ordering;

use vstd::prelude::*;
use vstd::std_specs::cmp::PartialOrdSpecImpl;

use crate::kbd::err::{KbdError, KbdResult};
use crate::kbd::modmask::{
    combine, filter_ignore, from_str, lemma_filter_idempotent, modifier_bit, significant, ModMask,
    IGNORED,
};
use crate::kbd::text::{same_text, split, split_words, texts};

verus! {

/// An index representing a mode.
pub type Mode = usize;

/// A symbolic key identity, independent of the keymap.
pub type Keysym = u32;

/// A mode switching action.
#[derive(Clone, Copy, Debug, PartialEq, Eq, Structural)]
pub enum ModeSwitchDesc {
    /// A mode switching action changing the current mode permanently.
    Permanent(Mode),
    /// A temporary mode switching action, changing behaviour only for the next chain.
    Temporary(Mode),
}

/// A command to be executed in reaction to specific key events.
#[derive(Debug)]
pub enum CmdDesc {
    /// A string to be passed to a shell to execute the command.
    Shell(String),
    /// A mode to switch to.
    ModeSwitch(ModeSwitchDesc),
}

/// A value of the configuration file, as far as commands are made of it.
#[derive(Debug)]
pub enum ConfigValue {
    /// A string.
    Text(String),
    /// A value of any other type.
    Other,
}

impl CmdDesc {
    /// The mode switch that the command asks for. A shell command asks for
    /// none; starting its process is left to the caller.
    pub fn run(&self) -> (res: Option<ModeSwitchDesc>)
        ensures
            res == (match *self {
                CmdDesc::Shell(_) => None,
                CmdDesc::ModeSwitch(switch) => Some(switch),
            }),
    {
        match *self {
            CmdDesc::Shell(_) => None,
            CmdDesc::ModeSwitch(ref switch) => Some(*switch),
        }
    }

    /// Construct a command from a configuration value: a string is a shell
    /// command, anything else is a type mismatch for the named binding.
    pub fn from_value(bind_str: String, value: ConfigValue) -> (res: KbdResult<CmdDesc>)
        ensures
            res == (match value {
                ConfigValue::Text(repr) => Ok::<CmdDesc, KbdError>(CmdDesc::Shell(repr)),
                ConfigValue::Other => Err(KbdError::KeyTypeMismatch(bind_str, true)),
            }),
    {
        if let ConfigValue::Text(repr) = value {
            Ok(CmdDesc::Shell(repr))
        } else {
            Err(KbdError::KeyTypeMismatch(bind_str, true))
        }
    }
}

/// A keysym wrapper used for various trait implementations.
#[derive(PartialEq, Eq, Copy, Clone, Debug, Structural, PartialOrd, Ord)]
pub struct KeysymDesc(Keysym);

impl KeysymDesc {
    /// The keysym that the description holds.
    pub closed spec fn value(self) -> Keysym {
        self.0
    }

    /// Wraps a keysym.
    pub fn new(inner: Keysym) -> (res: Self)
        ensures
            res.value() == inner,
    {
        KeysymDesc(inner)
    }

    /// The keysym that the description holds.
    pub fn symbol(&self) -> (res: Keysym)
        ensures
            res == self.value(),
    {
        self.0
    }
}

/// The value of a chord: its keysym and its modifiers.
pub struct ChordView {
    pub keysym: Keysym,
    pub modmask: ModMask,
}

impl ChordView {
    /// The chord holds no ignored modifier.
    pub open spec fn wf(self) -> bool {
        self.modmask & IGNORED == 0
    }

    /// The order of chords: by keysym, then by modifier mask.
    pub open spec fn lt(self, other: ChordView) -> bool {
        self.keysym < other.keysym || (self.keysym == other.keysym && self.modmask
            < other.modmask)
    }

    /// How two chords compare.
    pub open spec fn compare(self, other: ChordView) -> Ordering {
        if self.lt(other) {
            Ordering::Less
        } else if other.lt(self) {
            Ordering::Greater
        } else {
            Ordering::Equal
        }
    }

    /// The chord of a keysym and a modifier mask, ignored modifiers left out.
    pub open spec fn of(keysym: Keysym, modmask: ModMask) -> ChordView {
        ChordView { keysym, modmask: significant(modmask) }
    }
}

/// A chord description.
///
/// A *chord* is a set of modifiers and a key pressed at the same time, represented
/// by a symbolic keysym value (which is independent of keymap).
#[derive(Debug, Clone, Copy, PartialEq, Eq, Structural, Ord)]
pub struct ChordDesc {
    /// The keysym of the chord.
    keysym: KeysymDesc,
    /// The modifier mask of the non-depressed mods of the chord.
    modmask: ModMask,
}

impl View for ChordDesc {
    type V = ChordView;

    closed spec fn view(&self) -> ChordView {
        ChordView { keysym: self.keysym.0, modmask: self.modmask }
    }
}

impl PartialOrd for ChordDesc {
    fn partial_cmp(&self, other: &ChordDesc) -> (r: Option<Ordering>) {
        if self.keysym.0 < other.keysym.0 {
            Some(Ordering::Less)
        } else if self.keysym.0 > other.keysym.0 {
            Some(Ordering::Greater)
        } else if self.modmask < other.modmask {
            Some(Ordering::Less)
        } else if self.modmask > other.modmask {
            Some(Ordering::Greater)
        } else {
            Some(Ordering::Equal)
        }
    }
}

impl PartialOrdSpecImpl for ChordDesc {
    open spec fn obeys_partial_cmp_spec() -> bool {
        true
    }

    open spec fn partial_cmp_spec(&self, other: &ChordDesc) -> Option<Ordering> {
        Some(self@.compare(other@))
    }
}

/// The keysym that a word names, where one was supplied for it.
pub open spec fn keysym_at(syms: Seq<Option<Keysym>>, i: int) -> Option<Keysym> {
    if 0 <= i < syms.len() {
        syms[i]
    } else {
        None
    }
}

/// The chord that the words from number `i` on describe, given the
/// modifiers `mask` found so far. `$modkey` adds the default modifiers, a
/// modifier name adds its bit, the first word that names a keysym ends the
/// chord, and any other word is passed over.
pub open spec fn parse_chord(
    words: Seq<Seq<char>>,
    syms: Seq<Option<Keysym>>,
    modkey: ModMask,
    i: int,
    mask: ModMask,
) -> Option<ChordView>
    decreases words.len() - i,
{
    if i < 0 || i >= words.len() {
        None
    } else if words[i] == "$modkey"@ {
        parse_chord(words, syms, modkey, i + 1, mask | modkey)
    } else if modifier_bit(words[i]) is Some {
        parse_chord(words, syms, modkey, i + 1, mask | modifier_bit(words[i])->0)
    } else if keysym_at(syms, i) is Some {
        Some(ChordView::of(keysym_at(syms, i)->0, mask))
    } else {
        parse_chord(words, syms, modkey, i + 1, mask)
    }
}

/// The chord that a text describes: its words are the pieces between the
/// `+` signs.
pub open spec fn chord_of_text(desc: Seq<char>, syms: Seq<Option<Keysym>>, modkey: ModMask) -> Option<
    ChordView,
> {
    parse_chord(split(desc, '+'), syms, modkey, 0, 0)
}

impl ChordDesc {
    /// No ignored modifier is part of the chord.
    pub open spec fn wf(&self) -> bool {
        self@.wf()
    }

    /// Construct a chord description from a string representation of modifiers and a keysym.
    ///
    /// Assuming no spaces are present in the string, interpret a sequence of `+`-separated
    /// modifier descriptions, and a single symbol. Interpolates the `$modkey` variable with the
    /// given modifier mask. The part of the string following the first keysym representation is
    /// discarded.
    ///
    /// Which words name a keysym is for the keymap library to say:
    /// `keysyms` holds, for each `+`-separated word in order, the keysym
    /// that the word names, if any. A word past its end counts as naming none.
    pub fn from_string(desc: &str, modkey_mask: ModMask, keysyms: &Vec<Option<Keysym>>) -> (res:
        KbdResult<ChordDesc>)
        ensures
            match chord_of_text(desc@, keysyms@, modkey_mask) {
                Some(chord) => res matches Ok(c) && c@ == chord && c.wf(),
                None => res matches Err(KbdError::InvalidChord(text)) && text@ == desc@,
            },
    {
        let words = split_words(desc, '+');
        let ghost all = split(desc@, '+');
        let mut modmask: ModMask = 0;
        let mut i: usize = 0;
        while i < words.len()
            invariant
                i <= words.len(),
                all == split(desc@, '+'),
                texts(words@) == all,
                parse_chord(all, keysyms@, modkey_mask, 0, 0) == parse_chord(
                    all,
                    keysyms@,
                    modkey_mask,
                    i as int,
                    modmask,
                ),
            decreases words.len() - i,
        {
            let word = words[i].as_str();
            assert(word@ == all[i as int]);
            if same_text(word, "$modkey") {
                combine(&mut modmask, modkey_mask);
            } else if from_str(word, &mut modmask) {
            } else {
                let sym = if i < keysyms.len() {
                    keysyms[i]
                } else {
                    None
                };
                if let Some(sym) = sym {
                    let ghost found = modmask;
                    filter_ignore(&mut modmask);
                    proof {
                        lemma_filter_idempotent(found);
                        assert(keysym_at(keysyms@, i as int) == Some(sym));
                        assert(parse_chord(all, keysyms@, modkey_mask, i as int, found) == Some(
                            ChordView::of(sym, found),
                        ));
                    }
                    return Ok(ChordDesc { keysym: KeysymDesc(sym), modmask });
                }
            }
            i = i + 1;
        }
        Err(KbdError::InvalidChord(desc.to_owned()))
    }

    /// The chord of a keysym and a modifier mask; ignored modifiers are
    /// left out.
    pub fn new(keysym: KeysymDesc, modmask: ModMask) -> (res: ChordDesc)
        ensures
            res@ == ChordView::of(keysym.value(), modmask),
            res.wf(),
    {
        let mut modmask = modmask;
        let ghost given = modmask;
        filter_ignore(&mut modmask);
        proof {
            lemma_filter_idempotent(given);
        }
        ChordDesc { keysym, modmask }
    }

    /// The keysym of the chord.
    pub fn keysym(&self) -> (res: KeysymDesc)
        ensures
            res.value() == self@.keysym,
    {
        self.keysym
    }

    /// The low sixteen bits of the modifier mask, which hold every X modifier.
    pub fn modmask(&self) -> (res: u16)
        ensures
            res == self@.modmask & 0xffff,
    {
        let mask = self.modmask;
        assert(mask & 0xffff < 0x10000) by (bit_vector);
        (mask & 0xffff) as u16
    }
}

/// The values of a list of chords.
pub open spec fn chord_views(chords: Seq<ChordDesc>) -> Seq<ChordView> {
    Seq::new(chords.len(), |i: int| chords[i]@)
}

/// The keysyms supplied for the words of chord number `j` of a chain.
pub open spec fn keysyms_at(syms: Seq<Vec<Option<Keysym>>>, j: int) -> Seq<Option<Keysym>> {
    if 0 <= j < syms.len() {
        syms[j]@
    } else {
        Seq::empty()
    }
}

/// `done` followed by what `rest` holds, or the error of `rest`.
pub open spec fn chain_after(done: Seq<ChordView>, rest: Result<Seq<ChordView>, Seq<char>>) -> Result<
    Seq<ChordView>,
    Seq<char>,
> {
    match rest {
        Ok(chords) => Ok(done + chords),
        Err(text) => Err(text),
    }
}

/// The chords that the texts from number `j` on describe, in order, or
/// the first text among them that describes no chord.
pub open spec fn parse_chain(
    exprs: Seq<Seq<char>>,
    syms: Seq<Vec<Option<Keysym>>>,
    modkey: ModMask,
    j: int,
) -> Result<Seq<ChordView>, Seq<char>>
    decreases exprs.len() - j,
{
    if j < 0 || j >= exprs.len() {
        Ok(Seq::empty())
    } else {
        match chord_of_text(exprs[j], keysyms_at(syms, j), modkey) {
            Some(chord) => chain_after(seq![chord], parse_chain(exprs, syms, modkey, j + 1)),
            None => Err(exprs[j]),
        }
    }
}

/// The chain that a text describes: its chords are the pieces between
/// the spaces.
pub open spec fn chain_of_text(desc: Seq<char>, syms: Seq<Vec<Option<Keysym>>>, modkey: ModMask) -> Result<
    Seq<ChordView>,
    Seq<char>,
> {
    parse_chain(split(desc, ' '), syms, modkey, 0)
}

/// A chain description.
///
/// A *chain* is an ordered sequence of chords to be pressed after each other.
#[derive(Debug, PartialEq, Eq, PartialOrd, Ord)]
pub struct ChainDesc {
    /// The chords in the chain, in order.
    chords: Vec<ChordDesc>,
}

impl View for ChainDesc {
    type V = Seq<ChordView>;

    closed spec fn view(&self) -> Seq<ChordView> {
        chord_views(self.chords@)
    }
}

impl Default for ChainDesc {
    fn default() -> (res: ChainDesc)
        ensures
            res@ == Seq::<ChordView>::empty(),
    {
        let res = ChainDesc { chords: Vec::new() };
        assert(res@ =~= Seq::<ChordView>::empty());
        res
    }
}

impl ChainDesc {
    /// Every chord of the chain is free of ignored modifiers.
    pub closed spec fn wf(&self) -> bool {
        forall|i: int| 0 <= i < self.chords@.len() ==> (#[trigger] self.chords@[i]).wf()
    }

    /// Construct a chain description from a string representation.
    ///
    /// Interpret the string as a sequence of space-separated strings representing chords.
    /// `keysyms` holds for each of them what `ChordDesc::from_string` asks
    /// for; a chord past its end gets none.
    pub fn from_string(desc: &str, modkey_mask: ModMask, keysyms: &Vec<Vec<Option<Keysym>>>) -> (res:
        KbdResult<ChainDesc>)
        ensures
            match chain_of_text(desc@, keysyms@, modkey_mask) {
                Ok(chords) => res matches Ok(chain) && chain@ == chords && chain.wf(),
                Err(text) => res matches Err(KbdError::InvalidChord(t)) && t@ == text,
            },
    {
        let exprs = split_words(desc, ' ');
        let ghost all = split(desc@, ' ');
        let none: Vec<Option<Keysym>> = Vec::new();
        let mut chords: Vec<ChordDesc> = Vec::new();
        let mut j: usize = 0;
        while j < exprs.len()
            invariant
                j <= exprs.len(),
                all == split(desc@, ' '),
                texts(exprs@) == all,
                none@ == Seq::<Option<Keysym>>::empty(),
                forall|i: int| 0 <= i < chords@.len() ==> (#[trigger] chords@[i]).wf(),
                parse_chain(all, keysyms@, modkey_mask, 0) == chain_after(
                    chord_views(chords@),
                    parse_chain(all, keysyms@, modkey_mask, j as int),
                ),
            decreases exprs.len() - j,
        {
            let expr = exprs[j].as_str();
            assert(expr@ == all[j as int]);
            let syms = if j < keysyms.len() {
                &keysyms[j]
            } else {
                &none
            };
            assert(syms@ == keysyms_at(keysyms@, j as int));
            match ChordDesc::from_string(expr, modkey_mask, syms) {
                Ok(chord) => {
                    let ghost before = chord_views(chords@);
                    chords.push(chord);
                    proof {
                        assert(chord_views(chords@) =~= before + seq![chord@]);
                        let rest = parse_chain(all, keysyms@, modkey_mask, j + 1);
                        match rest {
                            Ok(tail) => {
                                assert(before + (seq![chord@] + tail) =~= chord_views(chords@)
                                    + tail);
                            },
                            Err(_) => {},
                        }
                    }
                },
                Err(e) => {
                    return Err(e);
                },
            }
            j = j + 1;
        }
        let chain = ChainDesc { chords };
        proof {
            assert(chain@ + Seq::<ChordView>::empty() =~= chain@);
        }
        Ok(chain)
    }

    /// Check if a given chain is a logical prefix of another one: whether
    /// the other chain starts with the chords of this one.
    pub fn is_prefix_of(&self, other: &ChainDesc) -> (res: bool)
        ensures
            res == self@.is_prefix_of(other@),
    {
        if self.chords.len() > other.chords.len() {
            return false;
        }
        let mut i: usize = 0;
        while i < self.chords.len()
            invariant
                i <= self.chords.len(),
                self.chords.len() <= other.chords.len(),
                forall|k: int| 0 <= k < i ==> self@[k] == other@[k],
            decreases self.chords.len() - i,
        {
            let a = self.chords[i];
            let b = other.chords[i];
            if !(a.keysym.0 == b.keysym.0 && a.modmask == b.modmask) {
                assert(self@[i as int] != other@.subrange(0, self@.len() as int)[i as int]);
                return false;
            }
            i = i + 1;
        }
        assert(self@ =~= other@.subrange(0, self@.len() as int));
        true
    }

    /// The chords of the chain, in order.
    pub fn chords(&self) -> (res: &Vec<ChordDesc>)
        ensures
            chord_views(res@) == self@,
    {
        &self.chords
    }

    /// Drops all chords from the chain.
    pub fn clear(&mut self)
        ensures
            final(self)@ == Seq::<ChordView>::empty(),
            final(self).wf(),
    {
        self.chords.clear();
        assert(self@ =~= Seq::<ChordView>::empty());
    }

    /// Appends a chord to the chain.
    pub fn push(&mut self, chord: ChordDesc)
        ensures
            final(self)@ == old(self)@.push(chord@),
            old(self).wf() && chord.wf() ==> final(self).wf(),
    {
        self.chords.push(chord);
        assert(self@ =~= old(self)@.push(chord@));
    }

    /// The number of chords in the chain.
    pub fn len(&self) -> (res: usize)
        ensures
            res == self@.len(),
    {
        self.chords.len()
    }

    /// Whether the chain holds no chord.
    pub fn is_empty(&self) -> (res: bool)
        ensures
            res == (self@.len() == 0),
    {
        self.len() == 0
    }
}

/// A mode description.
#[derive(Debug)]
pub struct ModeDesc {
    /// An optional command to execute when the given mode is entered.
    enter_cmd: Option<CmdDesc>,
    /// An optional command to execute when the given mode is left.
    leave_cmd: Option<CmdDesc>,
}

impl ModeDesc {
    /// The command run on entering the mode.
    pub closed spec fn on_enter(&self) -> Option<CmdDesc> {
        self.enter_cmd
    }

    /// The command run on leaving the mode.
    pub closed spec fn on_leave(&self) -> Option<CmdDesc> {
        self.leave_cmd
    }

    /// A mode with the commands to run on entering and on leaving it.
    pub fn new(enter_cmd: Option<CmdDesc>, leave_cmd: Option<CmdDesc>) -> (res: ModeDesc)
        ensures
            res.on_enter() == enter_cmd,
            res.on_leave() == leave_cmd,
    {
        ModeDesc { enter_cmd, leave_cmd }
    }

    /// The command to execute when the mode is entered.
    pub fn enter_cmd(&self) -> (res: Option<&CmdDesc>)
        ensures
            res == (match self.on_enter() {
                Some(cmd) => Some(&cmd),
                None => None,
            }),
    {
        self.enter_cmd.as_ref()
    }

    /// The command to execute when the mode is left.
    pub fn leave_cmd(&self) -> (res: Option<&CmdDesc>)
        ensures
            res == (match self.on_leave() {
                Some(cmd) => Some(&cmd),
                None => None,
            }),
    {
        self.leave_cmd.as_ref()
    }
}

/// Of two chords that differ, exactly one comes before the other, as `<`
/// and `>` tell it.
pub proof fn lemma_chord_order_total(a: ChordDesc, b: ChordDesc)
    requires
        a != b,
    ensures
        a@.lt(b@) != b@.lt(a@),
        vstd::std_specs::cmp::PartialOrdSpec::partial_cmp_spec(&a, &b) == Some(Ordering::Less) <==> a@.lt(b@),
        vstd::std_specs::cmp::PartialOrdSpec::partial_cmp_spec(&a, &b) == Some(Ordering::Greater) <==> b@.lt(a@),
        vstd::std_specs::cmp::PartialOrdSpec::partial_cmp_spec(&a, &b) != Some(Ordering::Equal),
{
}

/// The order of chords is transitive.
pub proof fn lemma_chord_order_transitive(a: ChordDesc, b: ChordDesc, c: ChordDesc)
    requires
        a@.lt(b@),
        b@.lt(c@),
    ensures
        a@.lt(c@),
        vstd::std_specs::cmp::PartialOrdSpec::partial_cmp_spec(&a, &c) == Some(Ordering::Less),
{
}

/// Every chain is a prefix of itself.
pub proof fn lemma_prefix_reflexive(a: ChainDesc)
    ensures
        a@.is_prefix_of(a@),
{
    assert(a@ =~= a@.subrange(0, a@.len() as int));
}

/// A prefix of a prefix of a chain is a prefix of that chain.
pub proof fn lemma_prefix_transitive(a: ChainDesc, b: ChainDesc, c: ChainDesc)
    requires
        a@.is_prefix_of(b@),
        b@.is_prefix_of(c@),
    ensures
        a@.is_prefix_of(c@),
{
    assert(a@ =~= c@.subrange(0, a@.len() as int)) by {
        assert forall|k: int| 0 <= k < a@.len() implies a@[k] == c@[k] by {
            assert(a@[k] == b@.subrange(0, a@.len() as int)[k]);
            assert(b@[k] == c@.subrange(0, b@.len() as int)[k]);
        }
    }
}

/// Two modifier masks that differ in ignored modifiers only make the same
/// chord with any keysym: the chords are equal, neither comes before the
/// other, and each is a prefix of exactly the chains of the other.
pub proof fn lemma_ignored_modifiers_ignored(keysym: Keysym, m1: ModMask, m2: ModMask)
    requires
        (m1 ^ m2) & !IGNORED == 0,
    ensures
        ChordView::of(keysym, m1) == ChordView::of(keysym, m2),
        ChordView::of(keysym, m1).compare(ChordView::of(keysym, m2)) == Ordering::Equal,
        forall|chain: Seq<ChordView>|
            seq![ChordView::of(keysym, m1)].is_prefix_of(chain) <==> seq![
                ChordView::of(keysym, m2),
            ].is_prefix_of(chain),
{
    assert(m1 & !0x32u32 == m2 & !0x32u32) by (bit_vector)
        requires
            (m1 ^ m2) & !0x32u32 == 0,
    ;
}

} // verus!
