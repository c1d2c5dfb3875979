//! The labels and input modes that the window manager is set up with.

use vstd::prelude::*;
use vstd::string::*;

use crate::kbd::text::same_text;
use crate::wm::client::ClientProps;
use crate::wm::layout::any::AnyLayout;
use crate::wm::layout::monocle::Monocle;
use crate::wm::layout::stack::{HStack, VStack};
use crate::wm::layout::TilingArea;
use crate::wm::tags::Tags;
use crate::wm::tagset::TagSet;
use crate::wm::window_system::WmConfig;

verus! {

/// The text of a decimal digit.
pub open spec fn digit_text(digit: nat) -> Seq<char> {
    if digit == 0 {
        "0"@
    } else if digit == 1 {
        "1"@
    } else if digit == 2 {
        "2"@
    } else if digit == 3 {
        "3"@
    } else if digit == 4 {
        "4"@
    } else if digit == 5 {
        "5"@
    } else if digit == 6 {
        "6"@
    } else if digit == 7 {
        "7"@
    } else if digit == 8 {
        "8"@
    } else {
        "9"@
    }
}

/// A number in decimal digits, without leading zeros.
pub open spec fn decimal(n: nat) -> Seq<char>
    decreases n,
{
    if n < 10 {
        digit_text(n)
    } else {
        decimal(n / 10) + digit_text(n % 10)
    }
}

/// The text of a decimal digit.
fn digit_str(digit: u8) -> (res: &'static str)
    requires
        digit < 10,
    ensures
        res@ == digit_text(digit as nat),
{
    if digit == 0 {
        "0"
    } else if digit == 1 {
        "1"
    } else if digit == 2 {
        "2"
    } else if digit == 3 {
        "3"
    } else if digit == 4 {
        "4"
    } else if digit == 5 {
        "5"
    } else if digit == 6 {
        "6"
    } else if digit == 7 {
        "7"
    } else if digit == 8 {
        "8"
    } else {
        "9"
    }
}

/// Appends a number in decimal digits to a text.
pub fn push_decimal(text: &mut String, n: u8)
    ensures
        final(text)@ == old(text)@ + decimal(n as nat),
{
    proof {
        reveal_with_fuel(decimal, 3);
    }
    let ghost start = text@;
    if n >= 100 {
        text.append(digit_str(n / 100));
    }
    if n >= 10 {
        text.append(digit_str((n / 10) % 10));
    }
    text.append(digit_str(n % 10));
    proof {
        let h = (n / 100) as nat;
        let t = ((n / 10) % 10) as nat;
        let o = (n % 10) as nat;
        if n >= 100 {
            assert((n as nat) / 10 / 10 == h);
            assert(((n as nat) / 10) % 10 == t);
            assert(decimal(n as nat) == digit_text(h) + digit_text(t) + digit_text(o));
            assert(text@ =~= start + decimal(n as nat));
        } else if n >= 10 {
            assert((n as nat) / 10 == t);
            assert(decimal(n as nat) == digit_text(t) + digit_text(o));
            assert(text@ =~= start + decimal(n as nat));
        } else {
            assert(text@ =~= start + decimal(n as nat));
        }
    }
}

/// All tags used by the window manager.
///
/// Tags are symbolic identifiers by which you can classify your clients.
/// Each window has one or more tags, and you can display zero or more tags.
/// This means that all windows having at least one of the tags of the
/// *tagset* to be displayed attached get displayed.
#[derive(Clone, Copy, Debug, PartialEq, Eq, Hash, Structural, PartialOrd, Ord)]
pub enum Tag {
    /// the web tag - for browsers and stuff
    Web,
    /// the bookmarks tag
    Marks,
    /// "unlimited" number of work tags
    Work(u8),
    /// the media tag - movies, music apps etc. go here
    Media,
    /// the chat tag - for IRC and IM
    Chat,
    /// the log tag - for log viewing
    Logs,
    /// the monitoring tag - for htop & co.
    Mon,
}

impl Default for Tag {
    fn default() -> (tag: Tag)
        ensures
            tag == Tag::Work(0),
    {
        Tag::Work(0)
    }
}

impl Tag {
    /// The place of the tag in the order of all tags: the variants in the
    /// order of their declaration, the work tags by their number.
    pub open spec fn rank(self) -> int {
        match self {
            Tag::Web => 0,
            Tag::Marks => 1,
            Tag::Work(n) => 2 + n,
            Tag::Media => 258,
            Tag::Chat => 259,
            Tag::Logs => 260,
            Tag::Mon => 261,
        }
    }

    /// The place of the tag in the order of all tags.
    pub fn order(&self) -> (res: u16)
        ensures
            res == self.rank(),
    {
        match *self {
            Tag::Web => 0,
            Tag::Marks => 1,
            Tag::Work(n) => 2 + (n as u16),
            Tag::Media => 258,
            Tag::Chat => 259,
            Tag::Logs => 260,
            Tag::Mon => 261,
        }
    }

    /// The name of the tag as shown to the user.
    pub open spec fn text(self) -> Seq<char> {
        match self {
            Tag::Web => "web"@,
            Tag::Marks => "marks"@,
            Tag::Work(n) => "work/"@ + decimal(n as nat),
            Tag::Media => "media"@,
            Tag::Chat => "chat"@,
            Tag::Logs => "logs"@,
            Tag::Mon => "mon"@,
        }
    }

    /// Appends the name of the tag to a text.
    pub fn write_to(&self, out: &mut String)
        ensures
            final(out)@ == old(out)@ + self.text(),
    {
        match *self {
            Tag::Web => out.append("web"),
            Tag::Marks => out.append("marks"),
            Tag::Work(n) => {
                let ghost start = out@;
                out.append("work/");
                push_decimal(out, n);
                assert(out@ =~= start + self.text());
            },
            Tag::Media => out.append("media"),
            Tag::Chat => out.append("chat"),
            Tag::Logs => out.append("logs"),
            Tag::Mon => out.append("mon"),
        }
    }

    /// The name of the tag as shown to the user.
    pub fn to_string(&self) -> (res: String)
        ensures
            res@ == self.text(),
    {
        let mut res = String::new();
        self.write_to(&mut res);
        assert(res@ =~= self.text());
        res
    }

    /// Tags with the same place in the order are the same tag.
    pub proof fn lemma_rank_injective(a: Tag, b: Tag)
        requires
            a.rank() == b.rank(),
        ensures
            a == b,
    {
    }
}

/// All keyboard modes used by the window manager.
///
/// A mode represents the active set of keybindings and/or their functionality.
/// This works like the vim editor: different keybindings get triggered in
/// different modes, even if the same keys are pressed.
#[derive(Clone, Copy, Debug, PartialEq, Eq, Hash, Structural)]
pub enum Mode {
    /// normal mode doing normal stuff
    Normal,
    /// toggle tag on client mode
    Toggle,
    /// move client to tag mode
    Move,
    /// toggle tag on tagset mode
    Setup,
}

impl Default for Mode {
    fn default() -> (mode: Mode)
        ensures
            mode == Mode::Normal,
    {
        Mode::Normal
    }
}

/// Generate a window manager config - colors, border width...
pub fn generate_config() -> (config: WmConfig)
    ensures
        config.f_color == (0x0000u16, 0x5555u16, 0x7777u16),
        config.u_color == (0x0000u16, 0x0000u16, 0x0000u16),
        config.border_width == 1,
        config.screen == (TilingArea { offset_x: 0, offset_y: 20, width: 1366, height: 768 }),
{
    WmConfig {
        f_color: (0x0000, 0x5555, 0x7777),
        u_color: (0x0000, 0x0000, 0x0000),
        border_width: 1,
        screen: TilingArea { offset_x: 0, offset_y: 20, width: 1366, height: 768 },
    }
}

/// Some text of the list is `name`.
pub open spec fn has_class(classes: Seq<String>, name: Seq<char>) -> bool {
    exists|k: int| 0 <= k < classes.len() && (#[trigger] classes[k])@ == name
}

/// Whether a client is of a class.
pub fn class_is(props: &ClientProps, name: &str) -> (res: bool)
    ensures
        res == has_class(props.class@, name@),
{
    let mut k: usize = 0;
    while k < props.class.len()
        invariant
            k <= props.class@.len(),
            forall|j: int| 0 <= j < k ==> (#[trigger] props.class@[j])@ != name@,
        decreases props.class@.len() - k,
    {
        if same_text(props.class[k].as_str(), name) {
            return true;
        }
        k = k + 1;
    }
    false
}

/// Where the default setup puts a client: the tag it gets, and whether
/// it goes in as a slave. Browsers go to the web tag as slaves; bookmarks,
/// chat, the media player and monitoring have a tag each; any other
/// client goes where the user is.
pub open spec fn default_placing(props: ClientProps) -> Option<(Tag, bool)> {
    if props.name@ == "Mozilla Firefox"@ {
        Some((Tag::Web, true))
    } else if has_class(props.class@, "uzbl-core"@) {
        Some((Tag::Web, true))
    } else if has_class(props.class@, "Marks"@) {
        Some((Tag::Marks, false))
    } else if has_class(props.class@, "Chat"@) {
        Some((Tag::Chat, false))
    } else if has_class(props.class@, "mpv"@) {
        Some((Tag::Media, false))
    } else if has_class(props.class@, "Mon"@) {
        Some((Tag::Mon, false))
    } else {
        None
    }
}

/// The matching function of the default setup, deciding upon client
/// placement.
pub fn default_matching(props: &ClientProps) -> (res: Option<(Vec<Tag>, bool)>)
    ensures
        match default_placing(*props) {
            Some((tag, as_slave)) => res matches Some((tags, slave)) && tags@ == seq![tag] && slave
                == as_slave,
            None => res is None,
        },
{
    let placing = if same_text(props.name.as_str(), "Mozilla Firefox") {
        Some((Tag::Web, true))
    } else if class_is(props, "uzbl-core") {
        Some((Tag::Web, true))
    } else if class_is(props, "Marks") {
        Some((Tag::Marks, false))
    } else if class_is(props, "Chat") {
        Some((Tag::Chat, false))
    } else if class_is(props, "mpv") {
        Some((Tag::Media, false))
    } else if class_is(props, "Mon") {
        Some((Tag::Mon, false))
    } else {
        None
    };
    match placing {
        Some((tag, as_slave)) => {
            let mut tags: Vec<Tag> = Vec::new();
            tags.push(tag);
            assert(tags@ =~= seq![tag]);
            Some((tags, as_slave))
        },
        None => None,
    }
}

/// The index of the tag set that the default setup shows first.
pub const DEFAULT_VIEW: u8 = 1;

/// The tag sets of the default setup, in the order of their indices:
/// web and bookmarks beside a fixed master, work, chat, media one window
/// at a time, and logs with monitoring.
pub fn default_tagsets() -> (res: Vec<TagSet<AnyLayout>>)
    ensures
        res@.len() == 5,
        res@[0].tags@ == set![Tag::Web, Tag::Marks],
        res@[0].layout == AnyLayout::VStack(
            VStack { master_factor: 75, inverted: false, fixed: true },
        ),
        res@[1].tags@ == set![Tag::Work(0)],
        res@[1].layout == AnyLayout::VStack(
            VStack { master_factor: 50, inverted: false, fixed: false },
        ),
        res@[2].tags@ == set![Tag::Chat],
        res@[2].layout == AnyLayout::HStack(
            HStack { master_factor: 75, inverted: true, fixed: false },
        ),
        res@[3].tags@ == set![Tag::Media],
        res@[3].layout == AnyLayout::Monocle(Monocle {  }),
        res@[4].tags@ == set![Tag::Logs, Tag::Mon],
        res@[4].layout == AnyLayout::HStack(
            HStack { master_factor: 75, inverted: true, fixed: false },
        ),
{
    let mut res: Vec<TagSet<AnyLayout>> = Vec::new();
    let mut web = Tags::new();
    web.insert(Tag::Web);
    web.insert(Tag::Marks);
    assert(web@ =~= set![Tag::Web, Tag::Marks]);
    res.push(
        TagSet::new(
            web,
            AnyLayout::VStack(VStack { master_factor: 75, inverted: false, fixed: true }),
        ),
    );
    let mut work = Tags::new();
    work.insert(Tag::Work(0));
    assert(work@ =~= set![Tag::Work(0)]);
    res.push(TagSet::new(work, AnyLayout::VStack(VStack::default())));
    let mut chat = Tags::new();
    chat.insert(Tag::Chat);
    assert(chat@ =~= set![Tag::Chat]);
    res.push(
        TagSet::new(
            chat,
            AnyLayout::HStack(HStack { master_factor: 75, inverted: true, fixed: false }),
        ),
    );
    let mut media = Tags::new();
    media.insert(Tag::Media);
    assert(media@ =~= set![Tag::Media]);
    res.push(TagSet::new(media, AnyLayout::Monocle(Monocle::default())));
    let mut logs = Tags::new();
    logs.insert(Tag::Logs);
    logs.insert(Tag::Mon);
    assert(logs@ =~= set![Tag::Logs, Tag::Mon]);
    res.push(
        TagSet::new(
            logs,
            AnyLayout::HStack(HStack { master_factor: 75, inverted: true, fixed: false }),
        ),
    );
    res
}

} // verus!
