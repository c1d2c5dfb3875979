use gabelstaplerwm::wm::client::ClientSet;
use gabelstaplerwm::wm::config::Tag;
use gabelstaplerwm::wm::layout::monocle::Monocle;
use gabelstaplerwm::wm::layout::TilingArea;
use gabelstaplerwm::wm::screen::{
    CrtcChange, Screen, ScreenSet, ROTATION_ROTATE_270, ROTATION_ROTATE_90,
};
use gabelstaplerwm::wm::status::current_tagset;
use gabelstaplerwm::wm::tags::Tags;
use gabelstaplerwm::wm::tagset::{TagSet, TagStack};

fn rect_area(x: u32, y: u32, width: u32, height: u32) -> TilingArea {
    TilingArea { offset_x: x, offset_y: y, width, height }
}

fn screen(width: u32, height: u32) -> Screen<Monocle> {
    Screen::new(rect_area(0, 0, width, height), TagStack::default())
}

fn set(crtcs: &[u32]) -> ScreenSet<Monocle> {
    ScreenSet::new(crtcs.iter().map(|c| (*c, screen(100 + *c, 50))).collect()).unwrap()
}

fn crtcs(set: &ScreenSet<Monocle>) -> Vec<u32> {
    set.screens().iter().map(|s| s.0).collect()
}

fn change(crtc: u32, x: i16, y: i16, width: u16, height: u16, rotation: u16) -> CrtcChange {
    CrtcChange { crtc, x, y, width, height, rotation }
}

#[test]
fn no_screen_set_without_screens() {
    assert!(ScreenSet::<Monocle>::new(Vec::new()).is_none());
    let set = set(&[7]);
    assert_eq!(crtcs(&set), vec![7]);
    assert_eq!(set.screen(), &rect_area(0, 0, 107, 50));
    assert!(set.tag_stack().is_clean());
    let fresh: Screen<Monocle> = Screen::default();
    assert_eq!(fresh.area, rect_area(0, 0, 0, 0));
    assert!(fresh.top.is_none() && fresh.right.is_none());
    assert!(fresh.bottom.is_none() && fresh.left.is_none());
}

#[test]
fn swap_dimensions_and_rotate() {
    let mut one = Screen::<Monocle>::new(rect_area(1, 2, 30, 40), TagStack::default());
    one.swap_dimensions();
    assert_eq!(one.area, rect_area(2, 1, 40, 30));
    let mut set = ScreenSet::new(vec![(1, one), (2, screen(5, 6))]).unwrap();
    set.rotate();
    assert_eq!(set.screens()[0].1.area, rect_area(1, 2, 30, 40));
    assert_eq!(set.screens()[1].1.area, rect_area(0, 0, 6, 5));
    assert_eq!(crtcs(&set), vec![1, 2]);
}

#[test]
fn crtc_rotation() {
    let mut set =
        ScreenSet::new(vec![(3, Screen::<Monocle>::new(rect_area(0, 0, 1920, 1080), TagStack::default()))])
            .unwrap();
    set.update(&change(3, 0, 0, 1920, 1080, ROTATION_ROTATE_90));
    assert_eq!(set.screens().len(), 1);
    assert_eq!(set.screen(), &rect_area(0, 0, 1080, 1920));
    set.update(&change(3, 5, 6, 1920, 1080, ROTATION_ROTATE_270 | 1));
    assert_eq!(set.screen(), &rect_area(6, 5, 1080, 1920));
    set.update(&change(3, 5, 6, 1920, 1080, 1));
    assert_eq!(set.screen(), &rect_area(5, 6, 1920, 1080));
    set.update(&change(3, 5, 6, 1920, 1080, 4));
    assert_eq!(set.screen(), &rect_area(5, 6, 1920, 1080));
}

#[test]
fn update_adds_unknown_crtcs_and_keeps_the_rest() {
    let mut set = set(&[1, 2]);
    set.screens_mut()[1].1.left = Some(1);
    set.update(&change(9, 100, 0, 640, 480, 1));
    assert_eq!(crtcs(&set), vec![1, 2, 9]);
    assert_eq!(set.screens()[2].1.area, rect_area(100, 0, 640, 480));
    assert!(set.screens()[2].1.tag_stack.is_clean());
    set.update(&change(2, 1, 2, 3, 4, 1));
    assert_eq!(crtcs(&set), vec![1, 2, 9]);
    assert_eq!(set.screens()[1].1.area, rect_area(1, 2, 3, 4));
    assert_eq!(set.screens()[1].1.left, Some(1));
    assert_eq!(set.screens()[0].1.area, rect_area(0, 0, 101, 50));
    // a position left of or above the origin keeps its bit pattern
    set.update(&change(2, -1, -32768, 3, 4, 1));
    assert_eq!(set.screens()[1].1.area, rect_area(0xffff_ffff, 0xffff_8000, 3, 4));
    assert!(!set.screens()[1].1.area.check_fits());
}

#[test]
fn change_screen_takes_indices_in_range_only() {
    let mut set = set(&[1, 2, 3]);
    assert!(set.change_screen(|cur, len| (cur + 1) % len));
    assert_eq!(set.current().area.width, 102);
    assert!(set.change_screen(|cur, len| (cur + 1) % len));
    assert!(set.change_screen(|cur, len| (cur + 1) % len));
    assert_eq!(set.current().area.width, 101);
    assert!(!set.change_screen(|_, len| len));
    assert!(!set.change_screen(|_, _| 17));
    assert_eq!(set.current().area.width, 101);
    assert!(set.change_screen(|cur, _| cur));
    assert!(set.change_screen(|_, len| len - 1));
    assert_eq!(set.current().area.width, 103);
}

#[test]
fn remove_resets_the_active_screen() {
    let mut set = set(&[1, 2, 3]);
    set.change_screen(|_, _| 2);
    assert!(!set.remove(1));
    assert_eq!(crtcs(&set), vec![2, 3]);
    assert_eq!(set.current().area.width, 102);
    set.change_screen(|_, _| 1);
    assert!(set.remove(3));
    assert_eq!(crtcs(&set), vec![2]);
    assert_eq!(set.current().area.width, 102);
    assert!(!set.remove(9));
    assert_eq!(crtcs(&set), vec![2]);
    let mut set = ScreenSet::new(vec![(4, screen(1, 1)), (5, screen(2, 2)), (4, screen(3, 3))])
        .unwrap();
    set.change_screen(|_, _| 1);
    assert!(!set.remove(4));
    assert_eq!(crtcs(&set), vec![5]);
    assert_eq!(set.current().area.width, 2);
}

#[test]
fn current_mut_and_tag_stack_mut() {
    let mut set = set(&[1, 2]);
    set.change_screen(|_, _| 1);
    set.current_mut().top = Some(1);
    assert_eq!(set.screens()[1].1.top, Some(1));
    assert_eq!(set.screens()[0].1.top, None);
    set.tag_stack_mut()
        .setup(vec![TagSet::new(Tags::from_slice(&[Tag::Web]), Monocle::default())], 0);
    assert!(set.screens()[0].1.tag_stack.is_clean());
    assert_eq!(set.tag_stack().current_index(), Some(&0));
}

#[test]
fn run_matching_sees_every_screen_in_order() {
    let mut set = set(&[4, 8, 6]);
    set.run_matching(&|screen: &mut Screen<Monocle>, crtc: u32, index: usize| {
        screen.right = Some(crtc + index as u32);
        screen.area.width = 1;
    });
    let seen: Vec<Option<u32>> = set.screens().iter().map(|s| s.1.right).collect();
    assert_eq!(seen, vec![Some(4), Some(9), Some(8)]);
    assert_eq!(crtcs(&set), vec![4, 8, 6]);
    assert_eq!(set.screens()[2].1.area.width, 1);
}

#[test]
fn status_line() {
    let clients = ClientSet::default();
    let mut set = set(&[1, 2, 3]);
    assert_eq!(current_tagset(&clients, &set), "[][][]");
    let sets = vec![
        TagSet::new(Tags::from_slice(&[Tag::Work(3), Tag::Web]), Monocle::default()),
        TagSet::new(Tags::new(), Monocle::default()),
    ];
    set.tag_stack_mut().setup(sets, 0);
    set.tag_stack_mut().set_hidden(&Tags::from_slice(&[Tag::Web]));
    set.change_screen(|_, _| 2);
    set.tag_stack_mut()
        .setup(vec![TagSet::new(Tags::from_slice(&[Tag::Mon]), Monocle::default())], 0);
    assert_eq!(current_tagset(&clients, &set), "[web,work/3]*[][mon]");
    set.change_screen(|_, _| 0);
    set.tag_stack_mut().push(1);
    assert_eq!(current_tagset(&clients, &set), "[]*[][mon]");
}
