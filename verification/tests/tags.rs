use gabelstaplerwm::wm::config::{
    class_is, default_matching, default_tagsets, generate_config, push_decimal, Mode, Tag,
    DEFAULT_VIEW,
};
use gabelstaplerwm::wm::client::ClientProps;
use gabelstaplerwm::wm::layout::any::AnyLayout;
use gabelstaplerwm::wm::layout::monocle::Monocle;
use gabelstaplerwm::wm::layout::stack::{HStack, VStack};
use gabelstaplerwm::wm::tags::Tags;
use gabelstaplerwm::wm::tagset::{write_tags, TagSet, TagStack};

fn tags(list: &[Tag]) -> Tags {
    Tags::from_slice(list)
}

fn tagset(list: &[Tag]) -> TagSet<Monocle> {
    TagSet::new(tags(list), Monocle::default())
}

fn stack(n: usize, viewed: u8) -> TagStack<Monocle> {
    let mut stack = TagStack::default();
    let sets = (0..n).map(|i| tagset(&[Tag::Work(i as u8)])).collect();
    stack.setup(sets, viewed);
    stack
}

#[test]
fn tag_defaults_and_order() {
    assert_eq!(Tag::default(), Tag::Work(0));
    assert_eq!(Mode::default(), Mode::Normal);
    assert_eq!(Tag::Web.order(), 0);
    assert_eq!(Tag::Marks.order(), 1);
    assert_eq!(Tag::Work(0).order(), 2);
    assert_eq!(Tag::Work(255).order(), 257);
    assert_eq!(Tag::Media.order(), 258);
    assert_eq!(Tag::Mon.order(), 261);
    // the order is that of the derived comparison
    let all = [
        Tag::Web,
        Tag::Marks,
        Tag::Work(0),
        Tag::Work(7),
        Tag::Work(255),
        Tag::Media,
        Tag::Chat,
        Tag::Logs,
        Tag::Mon,
    ];
    for a in all.iter() {
        for b in all.iter() {
            assert_eq!(a.order().cmp(&b.order()), a.cmp(b));
        }
    }
}

#[test]
fn tag_names() {
    assert_eq!(Tag::Web.to_string(), "web");
    assert_eq!(Tag::Marks.to_string(), "marks");
    assert_eq!(Tag::Media.to_string(), "media");
    assert_eq!(Tag::Chat.to_string(), "chat");
    assert_eq!(Tag::Logs.to_string(), "logs");
    assert_eq!(Tag::Mon.to_string(), "mon");
    assert_eq!(Tag::Work(0).to_string(), "work/0");
    assert_eq!(Tag::Work(9).to_string(), "work/9");
    assert_eq!(Tag::Work(10).to_string(), "work/10");
    assert_eq!(Tag::Work(99).to_string(), "work/99");
    assert_eq!(Tag::Work(100).to_string(), "work/100");
    assert_eq!(Tag::Work(205).to_string(), "work/205");
    assert_eq!(Tag::Work(255).to_string(), "work/255");
    let mut text = String::from("n=");
    push_decimal(&mut text, 42);
    assert_eq!(text, "n=42");
    for n in 0..=255u8 {
        let mut text = String::new();
        push_decimal(&mut text, n);
        assert_eq!(text, format!("{}", n));
    }
}

#[test]
fn tag_sets_keep_order_and_uniqueness() {
    let mut set = tags(&[Tag::Mon, Tag::Web, Tag::Work(3), Tag::Web, Tag::Work(1)]);
    assert_eq!(set.items(), &vec![Tag::Web, Tag::Work(1), Tag::Work(3), Tag::Mon]);
    assert_eq!(set.len(), 4);
    assert!(set.contains(&Tag::Work(3)));
    assert!(!set.contains(&Tag::Work(2)));
    assert!(!set.insert(Tag::Web));
    assert!(set.insert(Tag::Chat));
    assert_eq!(set.items(), &vec![Tag::Web, Tag::Work(1), Tag::Work(3), Tag::Chat, Tag::Mon]);
    assert!(set.remove(&Tag::Work(1)));
    assert!(!set.remove(&Tag::Work(1)));
    assert_eq!(set.items(), &vec![Tag::Web, Tag::Work(3), Tag::Chat, Tag::Mon]);
    assert!(!set.is_empty());
    assert!(Tags::new().is_empty());
    assert_eq!(Tags::new().len(), 0);
    set.assured();
    let copy = set.clone();
    assert!(copy.same(&set));
    assert_eq!(copy.items(), set.items());
}

#[test]
fn tag_set_algebra() {
    let a = tags(&[Tag::Web, Tag::Chat, Tag::Work(1)]);
    let b = tags(&[Tag::Work(1), Tag::Mon, Tag::Chat]);
    let c = tags(&[Tag::Media]);
    assert!(a.intersects(&b));
    assert!(b.intersects(&a));
    assert!(!a.intersects(&c));
    assert!(!a.intersects(&Tags::new()));
    assert!(!Tags::new().intersects(&a));
    assert_eq!(a.intersection(&b).items(), &vec![Tag::Work(1), Tag::Chat]);
    assert!(a.intersection(&c).is_empty());
    assert!(a.same(&tags(&[Tag::Work(1), Tag::Web, Tag::Chat])));
    assert!(!a.same(&b));
    assert!(!a.same(&tags(&[Tag::Web, Tag::Chat])));
}

#[test]
fn tag_set_text() {
    assert_eq!(tagset(&[]).to_string(), "[]");
    assert_eq!(tagset(&[Tag::Web]).to_string(), "[web]");
    assert_eq!(tagset(&[Tag::Mon, Tag::Work(12), Tag::Web]).to_string(), "[web,work/12,mon]");
    let mut text = String::from(">");
    write_tags(&tags(&[Tag::Logs, Tag::Chat]), &mut text);
    assert_eq!(text, ">[chat,logs]");
}

#[test]
fn toggle_tag_and_layout() {
    let mut set: TagSet<VStack> = TagSet::new(tags(&[Tag::Web]), VStack::default());
    assert!(!set.toggle_tag(Tag::Chat));
    assert_eq!(set.tags.items(), &vec![Tag::Web, Tag::Chat]);
    assert!(set.toggle_tag(Tag::Web));
    assert_eq!(set.tags.items(), &vec![Tag::Chat]);
    assert!(set.toggle_tag(Tag::Chat));
    assert!(set.tags.is_empty());
    set.set_layout(VStack { master_factor: 30, inverted: true, fixed: false });
    assert_eq!(set.layout.master_factor, 30);
    assert!(set.layout.inverted);
}

#[test]
fn history_cap() {
    let mut stack = stack(6, 0);
    assert_eq!(stack.current_index(), Some(&0));
    stack.view_prev();
    assert_eq!(stack.current_index(), None);
    stack.push(1);
    stack.push(2);
    stack.push(3);
    stack.push(4);
    stack.push(5);
    assert_eq!(stack.history(), vec![2, 3, 4, 5]);
    assert!(stack.view_prev());
    assert_eq!(stack.history(), vec![2, 3, 4]);
    assert_eq!(stack.current_index(), Some(&4));
}

#[test]
fn push_of_unknown_index_changes_nothing() {
    let mut stack = stack(2, 1);
    stack.push(7);
    assert_eq!(stack.history(), vec![1]);
    stack.push(0);
    stack.push(0);
    assert_eq!(stack.history(), vec![1, 0, 0]);
    assert_eq!(stack.current().unwrap().tags.items(), &vec![Tag::Work(0)]);
}

#[test]
fn setup_and_clean() {
    let mut stack: TagStack<Monocle> = TagStack::default();
    assert!(stack.is_clean());
    assert!(stack.current().is_none());
    assert!(stack.current_mut().is_none());
    assert!(!stack.view_prev());
    stack.setup(vec![tagset(&[Tag::Web]), tagset(&[Tag::Chat])], 5);
    assert!(!stack.is_clean());
    assert_eq!(stack.history(), Vec::<u8>::new());
    stack.setup(vec![tagset(&[Tag::Web]), tagset(&[Tag::Chat])], 1);
    assert_eq!(stack.history(), vec![1]);
    assert_eq!(stack.current().unwrap().tags.items(), &vec![Tag::Chat]);
    stack.setup(Vec::new(), 0);
    assert!(stack.is_clean());
}

#[test]
fn setup_counts_positions_modulo_256() {
    let mut stack: TagStack<Monocle> = TagStack::default();
    let sets = (0..258usize)
        .map(|i| tagset(&[if i < 256 { Tag::Work(i as u8) } else { Tag::Media }]))
        .collect();
    stack.setup(sets, 1);
    assert_eq!(stack.current().unwrap().tags.items(), &vec![Tag::Media]);
    stack.push(2);
    assert_eq!(stack.current().unwrap().tags.items(), &vec![Tag::Work(2)]);
}

#[test]
fn add_and_remove_tagsets() {
    let mut stack = stack(3, 0);
    assert!(stack.add(1, tagset(&[Tag::Mon])));
    stack.push(1);
    assert_eq!(stack.current().unwrap().tags.items(), &vec![Tag::Work(1)]);
    assert!(!stack.add(9, tagset(&[Tag::Mon])));
    stack.push(9);
    stack.push(1);
    stack.push(2);
    assert_eq!(stack.history(), vec![1, 9, 1, 2]);
    assert!(stack.remove(1));
    assert_eq!(stack.history(), vec![9, 2]);
    assert!(!stack.remove(1));
    assert_eq!(stack.history(), vec![9, 2]);
    stack.push(1);
    assert_eq!(stack.history(), vec![9, 2]);
}

#[test]
fn current_mut_changes_the_tagset_on_show() {
    let mut stack = stack(2, 1);
    stack.current_mut().unwrap().toggle_tag(Tag::Chat);
    assert_eq!(stack.current().unwrap().tags.items(), &vec![Tag::Work(1), Tag::Chat]);
    stack.push(0);
    assert_eq!(stack.current().unwrap().tags.items(), &vec![Tag::Work(0)]);
    stack.view_prev();
    assert_eq!(stack.current().unwrap().tags.items(), &vec![Tag::Work(1), Tag::Chat]);
}

#[test]
fn hidden_tags() {
    let mut stack: TagStack<Monocle> = TagStack::default();
    stack.set_hidden(&tags(&[Tag::Web]));
    assert!(stack.get_hidden().is_empty());
    stack.setup(vec![tagset(&[Tag::Web, Tag::Chat, Tag::Mon])], 0);
    stack.set_hidden(&tags(&[Tag::Mon, Tag::Media, Tag::Web]));
    assert_eq!(stack.get_hidden().items(), &vec![Tag::Web, Tag::Mon]);
    stack.set_hidden(&tags(&[Tag::Media]));
    assert!(stack.get_hidden().is_empty());
    stack.set_hidden(&tags(&[Tag::Chat]));
    stack.view_prev();
    stack.set_hidden(&tags(&[Tag::Chat]));
    assert!(stack.get_hidden().is_empty());
}

#[test]
fn default_setup() {
    let config = generate_config();
    assert_eq!(config.f_color, (0x0000, 0x5555, 0x7777));
    assert_eq!(config.u_color, (0, 0, 0));
    assert_eq!(config.border_width, 1);
    assert_eq!(config.screen.offset_x, 0);
    assert_eq!(config.screen.offset_y, 20);
    assert_eq!(config.screen.width, 1366);
    assert_eq!(config.screen.height, 768);
    let sets = default_tagsets();
    assert_eq!(sets.len(), 5);
    assert_eq!(sets[0].to_string(), "[web,marks]");
    assert_eq!(
        sets[0].layout,
        AnyLayout::VStack(VStack { master_factor: 75, inverted: false, fixed: true })
    );
    assert_eq!(sets[1].to_string(), "[work/0]");
    assert_eq!(sets[1].layout, AnyLayout::VStack(VStack::default()));
    assert_eq!(sets[2].to_string(), "[chat]");
    assert_eq!(
        sets[2].layout,
        AnyLayout::HStack(HStack { master_factor: 75, inverted: true, fixed: false })
    );
    assert_eq!(sets[3].to_string(), "[media]");
    assert_eq!(sets[3].layout, AnyLayout::Monocle(Monocle::default()));
    assert_eq!(sets[4].to_string(), "[logs,mon]");
    assert_eq!(DEFAULT_VIEW, 1);
}

fn props(name: &str, class: &[&str]) -> ClientProps {
    ClientProps {
        window_type: 0,
        state: Vec::new(),
        name: name.to_string(),
        class: class.iter().map(|c| c.to_string()).collect(),
    }
}

#[test]
fn default_matching_places_clients() {
    assert_eq!(default_matching(&props("Mozilla Firefox", &[])), Some((vec![Tag::Web], true)));
    assert_eq!(
        default_matching(&props("x", &["a", "uzbl-core"])),
        Some((vec![Tag::Web], true))
    );
    assert_eq!(default_matching(&props("x", &["Marks"])), Some((vec![Tag::Marks], false)));
    assert_eq!(default_matching(&props("x", &["Chat", "Mon"])), Some((vec![Tag::Chat], false)));
    assert_eq!(default_matching(&props("x", &["mpv"])), Some((vec![Tag::Media], false)));
    assert_eq!(default_matching(&props("x", &["Mon"])), Some((vec![Tag::Mon], false)));
    assert_eq!(default_matching(&props("mozilla firefox", &["chat"])), None);
    assert_eq!(default_matching(&props("", &[])), None);
    assert!(class_is(&props("", &["a", "b"]), "b"));
    assert!(!class_is(&props("b", &["a"]), "b"));
}

#[test]
fn work_tags_step_within_a_byte() {
    let mut set = tagset(&[Tag::Work(3), Tag::Chat]);
    assert_eq!(set.first_work(), Some(3));
    assert!(set.step_work(true));
    assert_eq!(set.tags.items(), &vec![Tag::Work(4), Tag::Chat]);
    assert!(set.step_work(false));
    assert!(set.step_work(false));
    assert_eq!(set.tags.items(), &vec![Tag::Work(2), Tag::Chat]);
    let mut low = tagset(&[Tag::Work(0)]);
    assert!(low.step_work(false));
    assert_eq!(low.tags.items(), &vec![Tag::Work(0)]);
    let mut high = tagset(&[Tag::Work(255), Tag::Work(254)]);
    assert_eq!(high.first_work(), Some(254));
    assert!(high.step_work(true));
    assert_eq!(high.tags.items(), &vec![Tag::Work(255)]);
    assert!(high.step_work(true));
    assert_eq!(high.tags.items(), &vec![Tag::Work(255)]);
    let mut web = tagset(&[Tag::Web, Tag::Work(1)]);
    assert_eq!(web.first_work(), None);
    assert!(!web.step_work(true));
    assert_eq!(web.tags.items(), &vec![Tag::Web, Tag::Work(1)]);
    assert_eq!(tagset(&[]).first_work(), None);
    assert_eq!(tags(&[Tag::Mon, Tag::Chat]).first(), Some(Tag::Chat));
    assert_eq!(Tags::new().first(), None);
}
