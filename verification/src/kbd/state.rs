//! The mode state machine: which binding a sequence of chords selects.

use vstd::prelude::*;

use crate::kbd::desc::{ChainDesc, ChordDesc, ChordView, Mode, ModeSwitchDesc};
use crate::wm::window_system::WmCommand;

verus! {

/// A key binding: in a mode, a chain of chords stands for a command.
pub struct Binding<C> {
    /// the mode in which the binding is active
    pub mode: Mode,
    /// the chain that triggers it
    pub chain: ChainDesc,
    /// what to run when it is triggered
    pub command: C,
}

/// What a chord leads to.
#[derive(Clone, Copy, Debug, PartialEq, Eq, Structural)]
pub enum Lookup {
    /// No binding of the current mode starts with the chords pressed.
    Unbound,
    /// Some bindings start with the chords pressed, none is complete.
    Pending,
    /// The chords pressed are the chain of the binding at this position
    /// of the table; its command is to be run.
    Bound(usize),
}

/// The value of the state machine.
pub struct KeyStateView {
    /// the mode whose bindings are active
    pub current_mode: Mode,
    /// the mode to go back to, while a temporary mode is active
    pub previous_mode: Option<Mode>,
    /// the chords pressed since the last chain ended
    pub pending: Seq<ChordView>,
}

/// Binding `i` is of the mode and its chain starts with `chain`.
pub open spec fn starts<C>(table: Seq<Binding<C>>, mode: Mode, chain: Seq<ChordView>, i: int) -> bool {
    0 <= i < table.len() && table[i].mode == mode && chain.is_prefix_of(table[i].chain@)
}

/// Binding `i` is of the mode and its chain is `chain`.
pub open spec fn completes<C>(table: Seq<Binding<C>>, mode: Mode, chain: Seq<ChordView>, i: int) -> bool {
    0 <= i < table.len() && table[i].mode == mode && table[i].chain@ == chain
}

/// Binding `i` is the first that `chain` completes.
pub open spec fn completes_first<C>(table: Seq<Binding<C>>, mode: Mode, chain: Seq<ChordView>, i: int) -> bool {
    completes(table, mode, chain, i) && forall|j: int| 0 <= j < i ==> !completes(table, mode, chain, j)
}

impl KeyStateView {
    /// The state when a chain ended without a binding: no chords pending,
    /// and a temporary mode given up for the mode before it.
    pub open spec fn lapsed(self) -> KeyStateView {
        KeyStateView {
            current_mode: match self.previous_mode {
                Some(mode) => mode,
                None => self.current_mode,
            },
            previous_mode: None,
            pending: Seq::empty(),
        }
    }

    /// The state after the chord was pressed.
    pub open spec fn pressed<C>(self, table: Seq<Binding<C>>, chord: ChordView) -> KeyStateView {
        let chain = self.pending.push(chord);
        if exists|i: int| completes(table, self.current_mode, chain, i) {
            KeyStateView { pending: Seq::empty(), ..self }
        } else if exists|i: int| starts(table, self.current_mode, chain, i) {
            KeyStateView { pending: chain, ..self }
        } else {
            self.lapsed()
        }
    }

    /// What the chord leads to. A complete chain wins over chains that
    /// go on.
    pub open spec fn found<C>(self, table: Seq<Binding<C>>, chord: ChordView, res: Lookup) -> bool {
        let chain = self.pending.push(chord);
        match res {
            Lookup::Bound(i) => completes_first(table, self.current_mode, chain, i as int),
            Lookup::Pending => (forall|i: int| !completes(table, self.current_mode, chain, i)) && (
            exists|i: int| starts(table, self.current_mode, chain, i)),
            Lookup::Unbound => forall|i: int| !starts(table, self.current_mode, chain, i),
        }
    }

    /// The state after the command of a complete chain has run with the
    /// given result: a mode switch takes effect, and after any other
    /// command a temporary mode ends.
    pub open spec fn finished(self, result: WmCommand) -> KeyStateView {
        match result {
            WmCommand::ModeSwitch(ModeSwitchDesc::Temporary(mode)) => KeyStateView {
                current_mode: mode,
                previous_mode: Some(self.current_mode),
                pending: self.pending,
            },
            WmCommand::ModeSwitch(ModeSwitchDesc::Permanent(mode)) => KeyStateView {
                current_mode: mode,
                previous_mode: None,
                pending: self.pending,
            },
            _ => KeyStateView {
                current_mode: match self.previous_mode {
                    Some(mode) => mode,
                    None => self.current_mode,
                },
                previous_mode: None,
                pending: self.pending,
            },
        }
    }
}

/// The state of the keyboard input: the active mode, the mode that a
/// temporary mode falls back to, and the chords of the chain under way.
pub struct KeyState {
    current_mode: Mode,
    previous_mode: Option<Mode>,
    pending: ChainDesc,
}

impl View for KeyState {
    type V = KeyStateView;

    closed spec fn view(&self) -> KeyStateView {
        KeyStateView {
            current_mode: self.current_mode,
            previous_mode: self.previous_mode,
            pending: self.pending@,
        }
    }
}

impl KeyState {
    /// The state at the start: in the given mode, nothing pressed yet.
    pub fn new(mode: Mode) -> (state: KeyState)
        ensures
            state@ == (KeyStateView {
                current_mode: mode,
                previous_mode: None,
                pending: Seq::empty(),
            }),
    {
        KeyState { current_mode: mode, previous_mode: None, pending: ChainDesc::default() }
    }

    /// The mode whose bindings are active.
    pub fn current_mode(&self) -> (mode: Mode)
        ensures
            mode == self@.current_mode,
    {
        self.current_mode
    }

    /// The mode that the active temporary mode falls back to.
    pub fn previous_mode(&self) -> (mode: Option<Mode>)
        ensures
            mode == self@.previous_mode,
    {
        self.previous_mode
    }

    /// The chords pressed since the last chain ended.
    pub fn pending(&self) -> (chain: &ChainDesc)
        ensures
            chain@ == self@.pending,
    {
        &self.pending
    }

    /// Takes the next chord. The chord joins the pending chain. If that
    /// is the chain of a binding of the current mode, the first such
    /// binding is returned to be run and the chain starts anew. If not, but
    /// bindings of the current mode start with it, more chords are waited
    /// for. Else the chain starts anew and a temporary mode lapses.
    pub fn press<C>(&mut self, table: &Vec<Binding<C>>, chord: ChordDesc) -> (res: Lookup)
        ensures
            old(self)@.found(table@, chord@, res),
            final(self)@ == old(self)@.pressed(table@, chord@),
    {
        self.pending.push(chord);
        let ghost chain = self.pending@;
        let mut goes_on = false;
        let mut i: usize = 0;
        while i < table.len()
            invariant
                i <= table@.len(),
                self.pending@ == chain,
                chain == old(self)@.pending.push(chord@),
                self.current_mode == old(self).current_mode,
                self.previous_mode == old(self).previous_mode,
                forall|j: int| 0 <= j < i ==> !completes(table@, self.current_mode, chain, j),
                goes_on == exists|j: int| 0 <= j < i && starts(table@, self.current_mode, chain, j),
            decreases table@.len() - i,
        {
            let binding = &table[i];
            if binding.mode == self.current_mode && self.pending.is_prefix_of(&binding.chain) {
                if binding.chain.len() == self.pending.len() {
                    proof {
                        assert(binding.chain@ =~= chain);
                        assert(completes(table@, self.current_mode, chain, i as int));
                    }
                    self.pending.clear();
                    return Lookup::Bound(i);
                }
                proof {
                    assert(starts(table@, self.current_mode, chain, i as int));
                }
                goes_on = true;
            } else {
                proof {
                    if binding.mode == self.current_mode && binding.chain@ == chain {
                        assert(chain =~= chain.subrange(0, chain.len() as int));
                    }
                }
            }
            i = i + 1;
        }
        if goes_on {
            Lookup::Pending
        } else {
            self.pending.clear();
            if let Some(mode) = self.previous_mode {
                self.current_mode = mode;
                self.previous_mode = None;
            }
            Lookup::Unbound
        }
    }

    /// Takes note of what the command of a complete chain returned: a
    /// mode switch takes effect and is not handed on; any other command
    /// ends a temporary mode and is handed on to the window manager.
    pub fn finish(&mut self, result: WmCommand) -> (res: Option<WmCommand>)
        ensures
            final(self)@ == old(self)@.finished(result),
            res == (match result {
                WmCommand::ModeSwitch(_) => None,
                _ => Some(result),
            }),
    {
        match result {
            WmCommand::ModeSwitch(ModeSwitchDesc::Temporary(mode)) => {
                self.previous_mode = Some(self.current_mode);
                self.current_mode = mode;
                None
            },
            WmCommand::ModeSwitch(ModeSwitchDesc::Permanent(mode)) => {
                self.current_mode = mode;
                self.previous_mode = None;
                None
            },
            _ => {
                if let Some(mode) = self.previous_mode {
                    self.current_mode = mode;
                    self.previous_mode = None;
                }
                Some(result)
            },
        }
    }
}

/// While a temporary mode is active, a chord that fits no binding of
/// that mode puts the mode from before back and clears the pending chain.
pub proof fn lemma_mode_lapse<C>(state: KeyStateView, table: Seq<Binding<C>>, chord: ChordView, before: Mode)
    requires
        state.previous_mode == Some(before),
        forall|i: int| !starts(table, state.current_mode, state.pending.push(chord), i),
    ensures
        state.pressed(table, chord).current_mode == before,
        state.pressed(table, chord).previous_mode is None,
        state.pressed(table, chord).pending == Seq::<ChordView>::empty(),
{
    let chain = state.pending.push(chord);
    assert forall|i: int| !completes(table, state.current_mode, chain, i) by {
        if completes(table, state.current_mode, chain, i) {
            assert(chain =~= chain.subrange(0, chain.len() as int));
            assert(starts(table, state.current_mode, chain, i));
        }
    }
}

} // verus!
