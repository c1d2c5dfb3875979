use gabelstaplerwm::wm::client::{Client, ClientProp, ClientProps, ClientSet};
use gabelstaplerwm::wm::config::Tag;
use gabelstaplerwm::wm::controller::{
    arrange_tagset, crtc_change, map_request, plan_screen, property_notify, redraw, unmap_notify,
    Placement,
};
use gabelstaplerwm::wm::layout::monocle::Monocle;
use gabelstaplerwm::wm::layout::stack::{HStack, VStack};
use gabelstaplerwm::wm::layout::{Geometry, TilingArea};
use gabelstaplerwm::wm::screen::{CrtcChange, Screen, ScreenSet};
use gabelstaplerwm::wm::tags::Tags;
use gabelstaplerwm::wm::tagset::{TagSet, TagStack};
use gabelstaplerwm::wm::window_system::WmCommand;

fn tag_set(list: &[Tag]) -> Tags {
    Tags::from_slice(list)
}

fn client_props(name: &str) -> ClientProps {
    ClientProps { window_type: 1, state: vec![2], name: name.to_string(), class: Vec::new() }
}

fn client(window: u32, list: &[Tag]) -> Client {
    Client::new(window, tag_set(list), client_props("c"))
}

fn view(list: &[Tag]) -> TagSet<VStack> {
    TagSet::new(tag_set(list), VStack::default())
}

/// Clients 1, 2, 3 on work/0, with the view on work/0 in order 1, 2, 3.
fn three() -> ClientSet {
    let mut set = ClientSet::default();
    set.add(client(1, &[Tag::Work(0)]), false);
    assert!(set.materialize(&tag_set(&[Tag::Work(0)])));
    set.add(client(2, &[Tag::Work(0), Tag::Web]), false);
    set.add(client(3, &[Tag::Work(0)]), false);
    assert_eq!(set.windows_on(&tag_set(&[Tag::Work(0)])), vec![1, 2, 3]);
    set
}

#[test]
fn client_tags() {
    let mut c = client(5, &[Tag::Web]);
    assert_eq!(c.window(), 5);
    assert_eq!(c.window, 5);
    assert_eq!(c.props.name, "c");
    assert!(c.match_tags(&tag_set(&[Tag::Chat, Tag::Web])));
    assert!(!c.match_tags(&tag_set(&[Tag::Chat])));
    assert!(!c.match_tags(&Tags::new()));
    assert_eq!(c.toggle_tag(Tag::Web), None);
    assert_eq!(c.tags().items(), &vec![Tag::Web]);
    assert_eq!(c.toggle_tag(Tag::Chat), Some(false));
    assert_eq!(c.tags().items(), &vec![Tag::Web, Tag::Chat]);
    assert_eq!(c.toggle_tag(Tag::Web), Some(true));
    assert_eq!(c.tags().items(), &vec![Tag::Chat]);
    c.set_tags(&[]);
    assert_eq!(c.tags().items(), &vec![Tag::Chat]);
    c.set_tags(&[Tag::Mon, Tag::Work(2), Tag::Mon]);
    assert_eq!(c.tags().items(), &vec![Tag::Work(2), Tag::Mon]);
    assert!(matches!(ClientProp::NoProp, ClientProp::NoProp));
}

#[test]
fn views_are_made_on_request_only() {
    let mut set = ClientSet::default();
    assert!(!set.materialize(&tag_set(&[Tag::Web])));
    set.add(client(1, &[Tag::Web]), false);
    set.add(client(2, &[Tag::Chat]), false);
    assert_eq!(set.windows_on(&tag_set(&[Tag::Web])), Vec::<u32>::new());
    assert_eq!(set.get_focused_window(&tag_set(&[Tag::Web])), None);
    assert!(!set.materialize(&tag_set(&[Tag::Mon])));
    assert!(set.materialize(&tag_set(&[Tag::Web])));
    assert!(set.materialize(&tag_set(&[Tag::Web])));
    assert_eq!(set.windows_on(&tag_set(&[Tag::Web])), vec![1]);
    assert_eq!(set.get_focused_window(&tag_set(&[Tag::Web])), Some(1));
    assert!(set.materialize(&tag_set(&[Tag::Web, Tag::Chat])));
    let mut both = set.windows_on(&tag_set(&[Tag::Chat, Tag::Web]));
    both.sort();
    assert_eq!(both, vec![1, 2]);
    assert_eq!(set.get_client_by_window(2).unwrap().window, 2);
    assert!(set.get_client_by_window(3).is_none());
}

#[test]
fn add_follows_the_tags() {
    let mut set = three();
    assert!(set.materialize(&tag_set(&[Tag::Web])));
    assert_eq!(set.windows_on(&tag_set(&[Tag::Web])), vec![2]);
    assert_eq!(set.get_focused_window(&tag_set(&[Tag::Work(0)])), Some(3));
    set.add(client(4, &[Tag::Web]), false);
    assert_eq!(set.windows_on(&tag_set(&[Tag::Web])), vec![2, 4]);
    assert_eq!(set.windows_on(&tag_set(&[Tag::Work(0)])), vec![1, 2, 3]);
    assert_eq!(set.get_focused_window(&tag_set(&[Tag::Web])), Some(4));
    // a slave goes before the reference and leaves the focus alone
    set.add(client(5, &[Tag::Web, Tag::Work(0)]), true);
    assert_eq!(set.windows_on(&tag_set(&[Tag::Web])), vec![2, 5, 4]);
    assert_eq!(set.windows_on(&tag_set(&[Tag::Work(0)])), vec![1, 2, 5, 3]);
    assert_eq!(set.get_focused_window(&tag_set(&[Tag::Web])), Some(4));
    assert_eq!(set.get_focused_window(&tag_set(&[Tag::Work(0)])), Some(3));
}

#[test]
fn add_remove_round_trip() {
    let mut set = three();
    assert!(set.materialize(&tag_set(&[Tag::Web])));
    let before_work = set.windows_on(&tag_set(&[Tag::Work(0)]));
    let before_web = set.windows_on(&tag_set(&[Tag::Web]));
    for as_slave in [true, false] {
        set.add(client(9, &[Tag::Work(0), Tag::Web]), as_slave);
        assert!(set.get_client_by_window(9).is_some());
        assert!(set.remove(9));
        assert!(set.get_client_by_window(9).is_none());
        assert_eq!(set.windows_on(&tag_set(&[Tag::Work(0)])), before_work);
        assert_eq!(set.windows_on(&tag_set(&[Tag::Web])), before_web);
        assert_eq!(set.get_focused_window(&tag_set(&[Tag::Work(0)])), Some(3));
        assert_eq!(set.get_focused_window(&tag_set(&[Tag::Web])), Some(2));
    }
}

#[test]
fn removing_an_unknown_window_is_a_no_op() {
    let mut set = three();
    assert!(!set.remove(9));
    assert_eq!(set.windows_on(&tag_set(&[Tag::Work(0)])), vec![1, 2, 3]);
    assert_eq!(set.get_focused_window(&tag_set(&[Tag::Work(0)])), Some(3));
}

#[test]
fn empty_views_are_dropped() {
    let mut set = three();
    assert!(set.materialize(&tag_set(&[Tag::Web])));
    assert!(set.remove(2));
    assert_eq!(set.windows_on(&tag_set(&[Tag::Web])), Vec::<u32>::new());
    assert!(!set.materialize(&tag_set(&[Tag::Web])));
    assert_eq!(set.windows_on(&tag_set(&[Tag::Work(0)])), vec![1, 3]);
    assert!(set.remove(1));
    assert!(set.remove(3));
    assert_eq!(set.windows_on(&tag_set(&[Tag::Work(0)])), Vec::<u32>::new());
    assert_eq!(set.get_focused_window(&tag_set(&[Tag::Work(0)])), None);
}

#[test]
fn tag_move() {
    let mut set = ClientSet::default();
    set.add(client(1, &[Tag::Work(0)]), false);
    set.add(client(2, &[Tag::Work(1)]), false);
    assert!(set.materialize(&tag_set(&[Tag::Work(0)])));
    assert!(set.materialize(&tag_set(&[Tag::Work(1)])));
    let res = set.update_client(1, |c: &mut Client| {
        c.set_tags(&[Tag::Work(1)]);
        WmCommand::Redraw
    });
    assert_eq!(res, Some(WmCommand::Redraw));
    assert_eq!(set.windows_on(&tag_set(&[Tag::Work(0)])), Vec::<u32>::new());
    assert_eq!(set.windows_on(&tag_set(&[Tag::Work(1)])), vec![2, 1]);
    assert_eq!(set.get_focused_window(&tag_set(&[Tag::Work(1)])), Some(2));
    assert_eq!(set.get_client_by_window(1).unwrap().tags().items(), &vec![Tag::Work(1)]);
    assert_eq!(set.update_client(7, |_: &mut Client| WmCommand::Quit), None);
}

#[test]
fn update_client_keeps_the_client_under_its_window() {
    let mut set = three();
    let res = set.update_client(2, |c: &mut Client| {
        c.window = 77;
        c.props.name = "renamed".to_string();
        WmCommand::NoCommand
    });
    assert_eq!(res, Some(WmCommand::NoCommand));
    assert_eq!(set.get_client_by_window(2).unwrap().window, 2);
    assert_eq!(set.get_client_by_window(2).unwrap().props.name, "renamed");
    assert!(set.get_client_by_window(77).is_none());
    assert_eq!(set.windows_on(&tag_set(&[Tag::Work(0)])), vec![1, 2, 3]);
}

#[test]
fn adding_a_known_window_again_moves_it() {
    let mut set = three();
    assert!(set.materialize(&tag_set(&[Tag::Web])));
    set.add(client(2, &[Tag::Chat]), false);
    assert_eq!(set.windows_on(&tag_set(&[Tag::Work(0)])), vec![1, 3]);
    assert_eq!(set.windows_on(&tag_set(&[Tag::Web])), Vec::<u32>::new());
    assert_eq!(set.get_client_by_window(2).unwrap().tags().items(), &vec![Tag::Chat]);
}

#[test]
fn focus_by_order_wraps_around() {
    let mut set = three();
    let v = view(&[Tag::Work(0)]);
    assert_eq!(set.get_focused_window(&v.tags), Some(3));
    assert!(set.focus_next(&v));
    assert_eq!(set.get_focused_window(&v.tags), Some(1));
    assert!(set.focus_next(&v));
    assert_eq!(set.get_focused_window(&v.tags), Some(2));
    assert!(set.focus_prev(&v));
    assert!(set.focus_prev(&v));
    assert_eq!(set.get_focused_window(&v.tags), Some(3));
    assert_eq!(set.windows_on(&v.tags), vec![1, 2, 3]);
    // a view without a tree, and a view with one window
    assert!(!set.focus_next(&view(&[Tag::Chat])));
    assert!(set.materialize(&tag_set(&[Tag::Web])));
    assert!(!set.focus_next(&view(&[Tag::Web])));
    assert!(!set.focus_prev(&view(&[Tag::Web])));
    assert!(!set.swap_next(&view(&[Tag::Web])));
}

#[test]
fn swap_by_order_moves_the_focused_window() {
    let mut set = three();
    let v = view(&[Tag::Work(0)]);
    assert!(set.swap_prev(&v));
    assert_eq!(set.windows_on(&v.tags), vec![1, 3, 2]);
    assert_eq!(set.get_focused_window(&v.tags), Some(3));
    assert!(set.swap_prev(&v));
    assert_eq!(set.windows_on(&v.tags), vec![3, 1, 2]);
    assert!(set.swap_prev(&v));
    assert_eq!(set.windows_on(&v.tags), vec![2, 1, 3]);
    assert!(set.swap_next(&v));
    assert_eq!(set.windows_on(&v.tags), vec![3, 1, 2]);
    assert_eq!(set.get_focused_window(&v.tags), Some(3));
    assert!(!set.swap_master(&v));
    assert!(set.focus_next(&v));
    assert!(set.swap_master(&v));
    assert_eq!(set.windows_on(&v.tags), vec![1, 3, 2]);
    assert_eq!(set.get_focused_window(&v.tags), Some(1));
}

#[test]
fn focus_by_direction_asks_the_layout() {
    let mut set = three();
    let v = view(&[Tag::Work(0)]);
    // master 1 on the left, 2 above 3 on the right; the focus is on 3
    assert!(!set.focus_right(&v));
    assert!(!set.focus_bottom(&v));
    assert!(set.focus_top(&v));
    assert_eq!(set.get_focused_window(&v.tags), Some(2));
    assert!(!set.focus_top(&v));
    assert!(set.focus_left(&v));
    assert_eq!(set.get_focused_window(&v.tags), Some(1));
    assert!(!set.focus_left(&v));
    assert!(set.focus_right(&v));
    assert_eq!(set.get_focused_window(&v.tags), Some(2));
    assert!(set.focus_bottom(&v));
    assert_eq!(set.get_focused_window(&v.tags), Some(3));
    let h = TagSet::new(tag_set(&[Tag::Work(0)]), HStack::default());
    assert!(set.focus_left(&h));
    assert_eq!(set.get_focused_window(&h.tags), Some(2));
    assert!(set.focus_top(&h));
    assert_eq!(set.get_focused_window(&h.tags), Some(1));
    let m = TagSet::new(tag_set(&[Tag::Work(0)]), Monocle::default());
    assert!(!set.focus_left(&m));
    assert!(!set.focus_bottom(&m));
}

#[test]
fn swap_by_direction_asks_the_layout() {
    let mut set = three();
    let v = view(&[Tag::Work(0)]);
    assert!(set.swap_left(&v));
    assert_eq!(set.windows_on(&v.tags), vec![3, 2, 1]);
    assert_eq!(set.get_focused_window(&v.tags), Some(3));
    assert!(!set.swap_left(&v));
    assert!(set.swap_right(&v));
    assert_eq!(set.windows_on(&v.tags), vec![2, 3, 1]);
    assert!(set.swap_bottom(&v));
    assert_eq!(set.windows_on(&v.tags), vec![2, 1, 3]);
    assert!(!set.swap_bottom(&v));
    assert!(set.swap_top(&v));
    assert_eq!(set.windows_on(&v.tags), vec![2, 3, 1]);
    assert_eq!(set.get_focused_window(&v.tags), Some(3));
}

fn screens() -> ScreenSet<VStack> {
    let mut stack = TagStack::default();
    stack.setup(vec![view(&[Tag::Web]), view(&[Tag::Work(0)])], 1);
    let area = TilingArea { offset_x: 0, offset_y: 20, width: 1000, height: 600 };
    ScreenSet::new(vec![(1, Screen::new(area, stack))]).unwrap()
}

#[test]
fn map_request_places_new_clients() {
    let mut set = ClientSet::default();
    let screens = screens();
    assert_eq!(map_request(&mut set, &screens, 1, client_props("a"), None), WmCommand::Redraw);
    assert_eq!(set.get_client_by_window(1).unwrap().tags().items(), &vec![Tag::Work(0)]);
    assert_eq!(set.get_client_by_window(1).unwrap().props.name, "a");
    assert!(set.materialize(&tag_set(&[Tag::Work(0)])));
    map_request(&mut set, &screens, 2, client_props("b"), Some((vec![Tag::Web, Tag::Work(0)], true)));
    assert_eq!(set.get_client_by_window(2).unwrap().tags().items(), &vec![Tag::Web, Tag::Work(0)]);
    assert_eq!(set.windows_on(&tag_set(&[Tag::Work(0)])), vec![2, 1]);
    assert_eq!(set.get_focused_window(&tag_set(&[Tag::Work(0)])), Some(1));
    map_request(&mut set, &screens, 3, client_props("c"), Some((Vec::new(), false)));
    assert_eq!(set.get_client_by_window(3).unwrap().tags().items(), &vec![Tag::Work(0)]);
    assert_eq!(set.windows_on(&tag_set(&[Tag::Work(0)])), vec![2, 1, 3]);
    let bare = ScreenSet::new(vec![(1, Screen::<VStack>::default())]).unwrap();
    map_request(&mut set, &bare, 4, client_props("d"), None);
    assert_eq!(set.get_client_by_window(4).unwrap().tags().items(), &vec![Tag::Work(0)]);
}

#[test]
fn unmap_and_crtc_events() {
    let mut set = three();
    assert_eq!(unmap_notify(&mut set, 2), WmCommand::Redraw);
    assert_eq!(unmap_notify(&mut set, 2), WmCommand::NoCommand);
    assert_eq!(set.windows_on(&tag_set(&[Tag::Work(0)])), vec![1, 3]);
    let mut screens = screens();
    let change = CrtcChange { crtc: 5, x: 10, y: 0, width: 800, height: 600, rotation: 2 };
    assert_eq!(crtc_change(&mut screens, &change), WmCommand::Redraw);
    assert_eq!(screens.screens().len(), 2);
    assert_eq!(
        screens.screens()[1].1.area,
        TilingArea { offset_x: 0, offset_y: 10, width: 600, height: 800 }
    );
}

#[test]
fn screen_plan() {
    let mut set = three();
    let screens = screens();
    let plan = plan_screen(&set, screens.current());
    let rect = |x, y, width, height| Some(Geometry { x, y, width, height });
    assert_eq!(
        plan.placements,
        vec![
            Placement { window: 1, geometry: rect(0, 20, 500, 600) },
            Placement { window: 2, geometry: rect(500, 20, 500, 300) },
            Placement { window: 3, geometry: rect(500, 320, 500, 300) },
        ]
    );
    assert_eq!(plan.focus, Some(3));
    let m = TagSet::new(tag_set(&[Tag::Work(0)]), Monocle::default());
    set.focus_prev(&m);
    let area = TilingArea { offset_x: 1, offset_y: 2, width: 3, height: 4 };
    assert_eq!(
        arrange_tagset(&set, &m, &area),
        vec![
            Placement { window: 1, geometry: None },
            Placement { window: 2, geometry: rect(1, 2, 3, 4) },
            Placement { window: 3, geometry: None },
        ]
    );
    let off = TilingArea { offset_x: u32::MAX, offset_y: 0, width: 3, height: 4 };
    assert_eq!(
        arrange_tagset(&set, &view(&[Tag::Work(0)]), &off),
        vec![
            Placement { window: 1, geometry: None },
            Placement { window: 2, geometry: None },
            Placement { window: 3, geometry: None },
        ]
    );
    assert_eq!(arrange_tagset(&set, &view(&[Tag::Chat]), &area), Vec::new());
    let bare: Screen<VStack> = Screen::default();
    let plan = plan_screen(&set, &bare);
    assert!(plan.placements.is_empty());
    assert_eq!(plan.focus, None);
}

#[test]
fn property_changes_move_clients() {
    let mut set = three();
    assert!(set.materialize(&tag_set(&[Tag::Web])));
    let command = property_notify(&mut set, 1, client_props("new"), Some((vec![Tag::Web], false)));
    assert_eq!(command, WmCommand::Redraw);
    assert_eq!(set.get_client_by_window(1).unwrap().props.name, "new");
    assert_eq!(set.get_client_by_window(1).unwrap().tags().items(), &vec![Tag::Web]);
    assert_eq!(set.windows_on(&tag_set(&[Tag::Work(0)])), vec![2, 3]);
    assert_eq!(set.windows_on(&tag_set(&[Tag::Web])), vec![2, 1]);
    let command = property_notify(&mut set, 3, client_props("other"), None);
    assert_eq!(command, WmCommand::NoCommand);
    assert_eq!(set.get_client_by_window(3).unwrap().props.name, "other");
    assert_eq!(set.get_client_by_window(3).unwrap().tags().items(), &vec![Tag::Work(0)]);
    let command = property_notify(&mut set, 3, client_props("x"), Some((Vec::new(), true)));
    assert_eq!(command, WmCommand::NoCommand);
    assert_eq!(property_notify(&mut set, 9, client_props("x"), Some((vec![Tag::Web], false))),
        WmCommand::NoCommand);
    assert!(set.get_client_by_window(9).is_none());
    assert!(set.refresh_client(2, client_props("two"), &[Tag::Chat]));
    assert!(!set.refresh_client(8, client_props("two"), &[Tag::Chat]));
    assert_eq!(set.windows_on(&tag_set(&[Tag::Web])), vec![1]);
}

#[test]
fn redraw_plans_every_screen_and_hides_the_rest() {
    let mut set = ClientSet::default();
    set.add(client(1, &[Tag::Work(0)]), false);
    set.add(client(2, &[Tag::Web]), false);
    set.add(client(3, &[Tag::Chat]), false);
    set.add(client(4, &[Tag::Work(0)]), false);
    let mut first = TagStack::default();
    first.setup(vec![view(&[Tag::Work(0)])], 0);
    let mut second = TagStack::default();
    second.setup(vec![view(&[Tag::Web]), view(&[Tag::Mon])], 0);
    let left = TilingArea { offset_x: 0, offset_y: 0, width: 100, height: 80 };
    let right = TilingArea { offset_x: 100, offset_y: 0, width: 50, height: 80 };
    let mut screens = ScreenSet::new(vec![
        (1, Screen::new(left, first)),
        (2, Screen::new(right, second)),
        (3, Screen::default()),
    ])
    .unwrap();
    let plan = redraw(&mut set, &screens);
    assert_eq!(plan.screens.len(), 3);
    let mut placed: Vec<u32> = plan.screens[0].placements.iter().map(|p| p.window).collect();
    placed.sort();
    assert_eq!(placed, vec![1, 4]);
    assert!(plan.screens[0].placements.iter().all(|p| p.geometry.is_some()));
    assert_eq!(
        plan.screens[1].placements,
        vec![Placement {
            window: 2,
            geometry: Some(Geometry { x: 100, y: 0, width: 50, height: 80 }),
        }]
    );
    assert_eq!(plan.screens[1].focus, Some(2));
    assert!(plan.screens[2].placements.is_empty());
    assert_eq!(plan.hidden, vec![3]);
    assert_eq!(windows_sorted(&set), vec![1, 2, 3, 4]);
    // a monocle view hides all but the focused window
    screens.change_screen(|_, _| 1);
    screens.tag_stack_mut().push(1);
    let plan = redraw(&mut set, &screens);
    assert!(plan.screens[1].placements.is_empty());
    let mut hidden = plan.hidden.clone();
    hidden.sort();
    assert_eq!(hidden, vec![2, 3]);
}

fn windows_sorted(set: &ClientSet) -> Vec<u32> {
    let mut windows = set.windows();
    windows.sort();
    windows
}

#[test]
fn views_show_exactly_the_clients_whose_tags_meet_theirs() {
    let all = [Tag::Web, Tag::Chat, Tag::Work(0), Tag::Work(1)];
    let views = [
        vec![Tag::Web],
        vec![Tag::Chat, Tag::Work(0)],
        vec![Tag::Work(1)],
        vec![Tag::Web, Tag::Work(1), Tag::Chat],
    ];
    let mut set = ClientSet::default();
    let mut tags_of: Vec<Option<Vec<Tag>>> = vec![None; 8];
    let mut state: u32 = 99;
    for _ in 0..300 {
        state = state.wrapping_mul(1664525).wrapping_add(1013904223);
        let window = (state >> 8) % 8;
        let pick = |bits: u32| -> Vec<Tag> {
            let chosen: Vec<Tag> =
                all.iter().enumerate().filter(|(i, _)| bits >> i & 1 == 1).map(|(_, t)| *t).collect();
            if chosen.is_empty() { vec![Tag::Web] } else { chosen }
        };
        match (state >> 16) % 4 {
            0 => {
                let list = pick(state >> 20);
                set.add(client(window, &list), state >> 24 & 1 == 1);
                tags_of[window as usize] = Some(list);
            }
            1 => {
                let removed = set.remove(window);
                assert_eq!(removed, tags_of[window as usize].is_some());
                tags_of[window as usize] = None;
            }
            2 => {
                let list = pick(state >> 20);
                let moved = set.update_client(window, |c: &mut Client| {
                    c.set_tags(&list);
                    WmCommand::Redraw
                });
                assert_eq!(moved.is_some(), tags_of[window as usize].is_some());
                if moved.is_some() {
                    tags_of[window as usize] = Some(list);
                }
            }
            _ => {
                let view = &views[((state >> 20) % 4) as usize];
                set.materialize(&tag_set(view));
            }
        }
        for view in views.iter() {
            let mut expected: Vec<u32> = (0..8u32)
                .filter(|w| match &tags_of[*w as usize] {
                    Some(list) => list.iter().any(|t| view.contains(t)),
                    None => false,
                })
                .collect();
            let mut shown = set.windows_on(&tag_set(view));
            shown.sort();
            if !shown.is_empty() {
                assert_eq!(shown, expected);
                let focused = set.get_focused_window(&tag_set(view)).unwrap();
                assert!(shown.contains(&focused));
            } else {
                expected.clear();
            }
            assert!(shown == expected);
        }
    }
}
