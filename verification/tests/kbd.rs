use gabelstaplerwm::kbd::desc::{
    ChainDesc, ChordDesc, CmdDesc, ConfigValue, KeysymDesc, ModeDesc, ModeSwitchDesc,
};
use gabelstaplerwm::kbd::err::KbdError;
use gabelstaplerwm::kbd::modmask;
use gabelstaplerwm::kbd::state::{Binding, KeyState, Lookup};
use gabelstaplerwm::kbd::text::{same_text, same_text_ignore_case, split_words, to_lower_char};
use gabelstaplerwm::wm::window_system::WmCommand;

const KEY_Q: u32 = 0x71;
const KEY_A: u32 = 0x61;
const KEY_B: u32 = 0x62;

fn chord(keysym: u32, mask: u32) -> ChordDesc {
    ChordDesc::new(KeysymDesc::new(keysym), mask)
}

fn chain(chords: &[ChordDesc]) -> ChainDesc {
    let mut chain = ChainDesc::default();
    for chord in chords {
        chain.push(*chord);
    }
    chain
}

#[test]
fn combine_is_bitwise_or() {
    let mut mask = modmask::SHIFT;
    modmask::combine(&mut mask, modmask::MOD4);
    assert_eq!(mask, 0x41);
    modmask::combine(&mut mask, 0);
    assert_eq!(mask, 0x41);
}

#[test]
fn modifier_names_are_recognised_in_any_case() {
    let mut mask = 0;
    assert!(modmask::from_str("Shift", &mut mask));
    assert_eq!(mask, modmask::SHIFT);
    assert!(modmask::from_str("CTRL", &mut mask));
    assert_eq!(mask, modmask::SHIFT | modmask::CONTROL);
    assert!(modmask::from_str("control", &mut mask));
    assert!(modmask::from_str("mod1", &mut mask));
    assert!(modmask::from_str("Mod4", &mut mask));
    assert_eq!(mask, 0x01 | 0x04 | 0x08 | 0x40);
    assert!(!modmask::from_str("q", &mut mask));
    assert!(!modmask::from_str("", &mut mask));
    assert!(!modmask::from_str("mod6", &mut mask));
    assert_eq!(mask, 0x4d);
    assert_eq!(modmask::lookup("lock"), Some(modmask::LOCK));
    assert_eq!(modmask::lookup("mod2"), Some(modmask::MOD2));
    assert_eq!(modmask::lookup("mod3"), Some(modmask::MOD3));
    assert_eq!(modmask::lookup("mod5"), Some(modmask::MOD5));
    assert_eq!(modmask::lookup("shifty"), None);
}

#[test]
fn filter_ignore_clears_lock_bits_only() {
    let mut mask = 0xff;
    modmask::filter_ignore(&mut mask);
    assert_eq!(mask, 0xcd);
    let mut mask = modmask::LOCK | modmask::MOD2 | modmask::MOD3;
    modmask::filter_ignore(&mut mask);
    assert_eq!(mask, 0);
    let mut mask = modmask::MOD4 | modmask::SHIFT;
    modmask::filter_ignore(&mut mask);
    assert_eq!(mask, 0x41);
}

#[test]
fn text_helpers() {
    assert_eq!(to_lower_char('A'), 'a');
    assert_eq!(to_lower_char('Z'), 'z');
    assert_eq!(to_lower_char('a'), 'a');
    assert_eq!(to_lower_char('['), '[');
    assert_eq!(to_lower_char('4'), '4');
    assert!(same_text("abc", "abc"));
    assert!(!same_text("abc", "abd"));
    assert!(!same_text("abc", "ab"));
    assert!(same_text_ignore_case("ShIfT", "shift"));
    assert!(!same_text_ignore_case("shift", "Shift"));
    assert_eq!(split_words("a+b+c", '+'), vec!["a", "b", "c"]);
    assert_eq!(split_words("", '+'), vec![""]);
    assert_eq!(split_words("+", '+'), vec!["", ""]);
    assert_eq!(split_words(" a  b", ' '), vec!["", "a", "", "b"]);
    assert_eq!(split_words("\u{e4}+\u{20ac}", '+'), vec!["\u{e4}", "\u{20ac}"]);
}

#[test]
fn chord_parse_with_modkey() {
    let keysyms = vec![None, None, Some(KEY_Q)];
    let chord = ChordDesc::from_string("$modkey+Shift+q", modmask::MOD4, &keysyms).unwrap();
    assert_eq!(chord.keysym().symbol(), KEY_Q);
    assert_eq!(chord.modmask(), 0x41);
}

#[test]
fn chord_parse_without_keysym_fails() {
    let keysyms = vec![None];
    match ChordDesc::from_string("abc", modmask::MOD4, &keysyms) {
        Err(KbdError::InvalidChord(text)) => assert_eq!(text, "abc"),
        other => panic!("unexpected {:?}", other),
    }
    match ChordDesc::from_string("", modmask::MOD4, &Vec::new()) {
        Err(KbdError::InvalidChord(text)) => assert_eq!(text, ""),
        other => panic!("unexpected {:?}", other),
    }
    match ChordDesc::from_string("Shift+Ctrl", 0, &vec![Some(1), Some(2)]) {
        Err(KbdError::InvalidChord(text)) => assert_eq!(text, "Shift+Ctrl"),
        other => panic!("unexpected {:?}", other),
    }
}

#[test]
fn chord_parse_details() {
    // the first keysym ends the chord, later words are not looked at
    let chord =
        ChordDesc::from_string("Ctrl+a+Shift+b", 0, &vec![None, Some(KEY_A), None, Some(KEY_B)])
            .unwrap();
    assert_eq!(chord.keysym().symbol(), KEY_A);
    assert_eq!(chord.modmask(), 0x04);
    // unknown words are passed over
    let chord = ChordDesc::from_string("foo+Mod1+a", 0, &vec![None, None, Some(KEY_A)]).unwrap();
    assert_eq!(chord.modmask(), 0x08);
    // a modifier name is a modifier even where a keysym is supplied for it
    let chord = ChordDesc::from_string("shift+a", 0, &vec![Some(9), Some(KEY_A)]).unwrap();
    assert_eq!(chord.keysym().symbol(), KEY_A);
    assert_eq!(chord.modmask(), 0x01);
    // ignored modifiers are stripped, those of the default mask too
    let chord =
        ChordDesc::from_string("$modkey+Lock+mod2+a", 0x42, &vec![None, None, None, Some(KEY_A)])
            .unwrap();
    assert_eq!(chord.modmask(), 0x40);
    // words past the supplied keysyms name none
    assert!(ChordDesc::from_string("a", 0, &Vec::new()).is_err());
}

#[test]
fn chord_new_strips_ignored_modifiers() {
    let a = chord(KEY_Q, modmask::MOD4 | modmask::LOCK);
    let b = chord(KEY_Q, modmask::MOD4 | modmask::MOD2 | modmask::MOD3);
    let c = chord(KEY_Q, modmask::MOD4);
    assert_eq!(a, b);
    assert_eq!(a, c);
    assert_eq!(a.modmask(), 0x40);
    assert_eq!(a.partial_cmp(&b), Some(std::cmp::Ordering::Equal));
    assert_eq!(chord(KEY_Q, 0x1_0040).modmask(), 0x40);
}

#[test]
fn chord_order_is_by_keysym_then_mask() {
    let a = chord(KEY_A, 0x40);
    let b = chord(KEY_B, 0x01);
    let c = chord(KEY_B, 0x04);
    assert!(a < b);
    assert!(b > a);
    assert!(b < c);
    assert!(a < c);
    assert!(!(b < b));
    assert_eq!(a.cmp(&b), std::cmp::Ordering::Less);
    assert_eq!(c.cmp(&b), std::cmp::Ordering::Greater);
    assert!(KeysymDesc::new(1) < KeysymDesc::new(2));
}

#[test]
fn chain_parse() {
    let keysyms = vec![vec![None, Some(KEY_A)], vec![Some(KEY_B)]];
    let parsed = ChainDesc::from_string("$modkey+a b", modmask::MOD4, &keysyms).unwrap();
    assert_eq!(parsed.len(), 2);
    assert_eq!(parsed.chords()[0], chord(KEY_A, modmask::MOD4));
    assert_eq!(parsed.chords()[1], chord(KEY_B, 0));
    match ChainDesc::from_string("a  b", 0, &vec![vec![Some(KEY_A)], vec![], vec![Some(KEY_B)]]) {
        Err(KbdError::InvalidChord(text)) => assert_eq!(text, ""),
        other => panic!("unexpected {:?}", other),
    }
    match ChainDesc::from_string("a x", 0, &vec![vec![Some(KEY_A)]]) {
        Err(KbdError::InvalidChord(text)) => assert_eq!(text, "x"),
        other => panic!("unexpected {:?}", other),
    }
    assert!(ChainDesc::from_string(" a", 0, &vec![vec![], vec![Some(KEY_A)]]).is_err());
}

#[test]
fn chain_prefixes() {
    let a = chord(KEY_A, 0);
    let b = chord(KEY_B, 0);
    let empty = ChainDesc::default();
    let one = chain(&[a]);
    let two = chain(&[a, b]);
    let other = chain(&[b, a]);
    assert!(empty.is_empty());
    assert!(!one.is_empty());
    assert!(empty.is_prefix_of(&empty));
    assert!(one.is_prefix_of(&one));
    assert!(empty.is_prefix_of(&two));
    assert!(one.is_prefix_of(&two));
    assert!(two.is_prefix_of(&two));
    assert!(!two.is_prefix_of(&one));
    assert!(!one.is_prefix_of(&other));
    let mut cleared = chain(&[a, b]);
    cleared.clear();
    assert_eq!(cleared.len(), 0);
    assert!(cleared.is_prefix_of(&one));
}

#[test]
fn commands() {
    assert_eq!(CmdDesc::Shell("ls".to_string()).run(), None);
    let switch = ModeSwitchDesc::Temporary(3);
    assert_eq!(CmdDesc::ModeSwitch(switch).run(), Some(switch));
    match CmdDesc::from_value("a".to_string(), ConfigValue::Text("xterm".to_string())) {
        Ok(CmdDesc::Shell(repr)) => assert_eq!(repr, "xterm"),
        other => panic!("unexpected {:?}", other),
    }
    match CmdDesc::from_value("a b".to_string(), ConfigValue::Other) {
        Err(KbdError::KeyTypeMismatch(binding, expected_string)) => {
            assert_eq!(binding, "a b");
            assert!(expected_string);
        }
        other => panic!("unexpected {:?}", other),
    }
    let mode = ModeDesc::new(Some(CmdDesc::Shell("in".to_string())), None);
    assert!(matches!(mode.enter_cmd(), Some(CmdDesc::Shell(_))));
    assert!(mode.leave_cmd().is_none());
}

fn table() -> Vec<Binding<u8>> {
    let a = chord(KEY_A, 0);
    let b = chord(KEY_B, 0);
    let q = chord(KEY_Q, modmask::MOD4);
    vec![
        Binding { mode: 0, chain: chain(&[a, b]), command: 10 },
        Binding { mode: 0, chain: chain(&[a]), command: 11 },
        Binding { mode: 0, chain: chain(&[q]), command: 12 },
        Binding { mode: 1, chain: chain(&[b]), command: 13 },
        Binding { mode: 0, chain: chain(&[b, b]), command: 14 },
        Binding { mode: 0, chain: chain(&[q]), command: 15 },
    ]
}

#[test]
fn exact_match_wins_over_longer_chains() {
    let table = table();
    let mut state = KeyState::new(0);
    assert_eq!(state.press(&table, chord(KEY_A, 0)), Lookup::Bound(1));
    assert!(state.pending().is_empty());
    assert_eq!(state.press(&table, chord(KEY_Q, modmask::MOD4 | modmask::LOCK)), Lookup::Bound(2));
}

#[test]
fn strict_prefix_waits_for_more() {
    let table = table();
    let mut state = KeyState::new(0);
    assert_eq!(state.press(&table, chord(KEY_B, 0)), Lookup::Pending);
    assert_eq!(state.pending().len(), 1);
    assert_eq!(state.press(&table, chord(KEY_B, 0)), Lookup::Bound(4));
    assert!(state.pending().is_empty());
    assert_eq!(state.press(&table, chord(KEY_B, 0)), Lookup::Pending);
    assert_eq!(state.press(&table, chord(KEY_A, 0)), Lookup::Unbound);
    assert!(state.pending().is_empty());
    assert_eq!(state.current_mode(), 0);
}

#[test]
fn mode_transition() {
    let table = table();
    let mut state = KeyState::new(0);
    assert_eq!(state.press(&table, chord(KEY_Q, modmask::MOD4)), Lookup::Bound(2));
    assert_eq!(state.finish(WmCommand::ModeSwitch(ModeSwitchDesc::Permanent(1))), None);
    assert_eq!(state.current_mode(), 1);
    assert_eq!(state.previous_mode(), None);
    // bound in mode 0 only
    assert_eq!(state.press(&table, chord(KEY_Q, modmask::MOD4)), Lookup::Unbound);
    assert!(state.pending().is_empty());
    assert_eq!(state.current_mode(), 1);
    assert_eq!(state.previous_mode(), None);
}

#[test]
fn temporary_mode_lapses() {
    let table = table();
    let mut state = KeyState::new(0);
    assert_eq!(state.finish(WmCommand::ModeSwitch(ModeSwitchDesc::Temporary(1))), None);
    assert_eq!(state.current_mode(), 1);
    assert_eq!(state.previous_mode(), Some(0));
    assert_eq!(state.press(&table, chord(KEY_A, 0)), Lookup::Unbound);
    assert_eq!(state.current_mode(), 0);
    assert_eq!(state.previous_mode(), None);
    assert!(state.pending().is_empty());
}

#[test]
fn temporary_mode_ends_with_its_chain() {
    let table = table();
    let mut state = KeyState::new(0);
    state.finish(WmCommand::ModeSwitch(ModeSwitchDesc::Temporary(1)));
    assert_eq!(state.press(&table, chord(KEY_B, 0)), Lookup::Bound(3));
    assert_eq!(state.current_mode(), 1);
    assert_eq!(state.finish(WmCommand::Redraw), Some(WmCommand::Redraw));
    assert_eq!(state.current_mode(), 0);
    assert_eq!(state.previous_mode(), None);
    assert_eq!(state.finish(WmCommand::Quit), Some(WmCommand::Quit));
    assert_eq!(state.current_mode(), 0);
}
