//! Clients and the client set.

use std::collections::HashMap;

use vstd::prelude::*;
use vstd::std_specs::hash::*;
use vstd::std_specs::iter::IteratorSpec;

use crate::wm::config::Tag;
use crate::wm::layout::{Layout, SplitDirection};
use crate::wm::subset::{InsertBias, Window};
use crate::wm::tags::Tags;
use crate::wm::tagset::TagSet;
use crate::wm::tree::SubsetTree;
use crate::wm::tree_model::{
    lemma_add_remove_roundtrip, lemma_add_windows, lemma_remove_windows, TreeView,
};
use crate::wm::util::{backwards, reverse};
use crate::wm::window_system::WmCommand;

verus! {

broadcast use vstd::std_specs::hash::group_hash_axioms;

/// An X atom.
pub type Atom = u32;

/// Client property, as returned from a call.
#[derive(Debug, PartialEq, Eq)]
pub enum ClientProp {
    /// Property lookup returned at least one atom
    PropAtom(Vec<Atom>),
    /// Property lookup returned at least one string
    PropString(Vec<String>),
    /// No property was returned
    NoProp,
}

/// Client properties, as obtained from the X server.
#[derive(Clone, Debug)]
pub struct ClientProps {
    /// client/window type
    pub window_type: Atom,
    /// window state
    pub state: Vec<Atom>,
    /// the client's title
    pub name: String,
    /// the client's class(es)
    pub class: Vec<String>,
}

/// A client wrapping a window.
///
/// A client is a container object that holds the information associated with,
/// a window, but doesn't directly influence the workings of the window
/// manager. That is, the window's properties are used to alter associated
/// structures, which in turn influence the behaviour of the window manager.
#[derive(Clone, Debug)]
pub struct Client {
    /// the window (a direct child of root)
    pub window: Window,
    /// client properties
    pub props: ClientProps,
    /// all tags this client is visible on, in no particular order
    tags: Tags,
}

/// The two sets have a tag in common.
pub open spec fn meet(a: Set<Tag>, b: Set<Tag>) -> bool {
    exists|t: Tag| a.contains(t) && b.contains(t)
}

impl Client {
    /// The tags that the client is visible on.
    pub closed spec fn tag_set(&self) -> Set<Tag> {
        self.tags@
    }

    /// The window that the client wraps.
    pub closed spec fn id(&self) -> Window {
        self.window
    }

    /// The properties of the client.
    pub closed spec fn properties(&self) -> ClientProps {
        self.props
    }

    /// The client is visible on some tag.
    pub open spec fn wf(&self) -> bool {
        self.tag_set() != Set::<Tag>::empty()
    }

    /// Setup a new client for a specific window, on a set of tags
    /// and with given properties.
    pub fn new(window: Window, tags: Tags, props: ClientProps) -> (client: Client)
        ensures
            client.id() == window,
            client.properties() == props,
            client.tag_set() == tags@,
    {
        Client { window, props, tags }
    }

    /// The window that the client wraps.
    pub fn window(&self) -> (window: Window)
        ensures
            window == self.id(),
    {
        self.window
    }

    /// The tags that the client is visible on.
    pub fn tags(&self) -> (tags: &Tags)
        ensures
            tags@ == self.tag_set(),
    {
        &self.tags
    }

    /// *Move* a window to a new set of tags; an empty slice leaves the
    /// client on the tags it has.
    pub fn set_tags(&mut self, tags: &[Tag])
        ensures
            final(self).tag_set() == (if tags@.len() > 0 {
                tags@.to_set()
            } else {
                old(self).tag_set()
            }),
            final(self).id() == old(self).id(),
            final(self).properties() == old(self).properties(),
            old(self).wf() ==> final(self).wf(),
    {
        if tags.len() > 0 {
            self.tags = Tags::from_slice(tags);
            proof {
                assert(tags@.contains(tags@[0]));
                assert(tags@.to_set().contains(tags@[0]));
            }
        }
    }

    /// Add or remove a tag from a window.
    ///
    /// If the client would be visible on no tags at all, the operation is not
    /// performed. Tells whether the tag was set before, where anything was done.
    pub fn toggle_tag(&mut self, tag: Tag) -> (res: Option<bool>)
        ensures
            res == (if !old(self).tag_set().contains(tag) {
                Some(false)
            } else if old(self).tag_set().len() > 1 {
                Some(true)
            } else {
                None
            }),
            final(self).tag_set() == (match res {
                Some(true) => old(self).tag_set().remove(tag),
                Some(false) => old(self).tag_set().insert(tag),
                None => old(self).tag_set(),
            }),
            final(self).id() == old(self).id(),
            final(self).properties() == old(self).properties(),
            old(self).wf() ==> final(self).wf(),
    {
        proof {
            self.tags.lemma_finite();
        }
        if self.tags.contains(&tag) {
            if self.tags.len() > 1 {
                self.tags.remove(&tag);
                proof {
                    let before = old(self).tag_set();
                    assert(before.remove(tag).len() > 0);
                    assert(before.remove(tag) != Set::<Tag>::empty());
                }
                Some(true)
            } else {
                None
            }
        } else {
            self.tags.insert(tag);
            proof {
                assert(self.tag_set().contains(tag));
            }
            Some(false)
        }
    }

    /// Check whether a client is visible on a set of tags.
    pub fn match_tags(&self, tags: &Tags) -> (res: bool)
        ensures
            res == meet(self.tag_set(), tags@),
    {
        self.tags.intersects(tags)
    }
}

/// The windows that a map of clients has, each once.
fn window_list(clients: &HashMap<Window, Client>) -> (res: Vec<Window>)
    ensures
        res@.to_set() == clients@.dom(),
        res@.no_duplicates(),
{
    let mut res: Vec<Window> = Vec::new();
    let ghost keys = spec_keys_iter(clients).remaining();
    for k in it: clients.keys()
        invariant
            it.seq() == keys,
            res@ == it.seq().take(it.index() as int).unref(),
    {
        res.push(*k);
    }
    proof {
        assert(keys.take(keys.len() as int) =~= keys);
        assert(res@ == keys.unref());
        assert(res@.no_duplicates()) by {
            assert forall|i: int, j: int|
                0 <= i < res@.len() && 0 <= j < res@.len() && i != j implies res@[i]
                != res@[j] by {
                assert(keys[i] != keys[j]);
            }
        }
    }
    res
}

/// The value of a client set.
pub struct ClientSetView {
    /// all clients by their window
    pub clients: Map<Window, Client>,
    /// the views that have an order of their clients: tags and tree
    pub order: Seq<(Set<Tag>, TreeView)>,
}

/// The values of the entries of an order.
pub open spec fn entries_view(order: Seq<(Tags, SubsetTree)>) -> Seq<(Set<Tag>, TreeView)> {
    Seq::new(order.len(), |i: int| (order[i].0@, order[i].1@))
}

/// Window `w` belongs to a client that is visible on one of `tags`.
pub open spec fn shows(clients: Map<Window, Client>, tags: Set<Tag>, w: Window) -> bool {
    clients.contains_key(w) && meet(clients[w].tag_set(), tags)
}

/// The leaves of the tree of an entry are the windows of the clients
/// visible on the tags of the entry.
pub open spec fn entry_shows(clients: Map<Window, Client>, e: (Set<Tag>, TreeView)) -> bool {
    forall|w: Window| #[trigger] e.1.contains_window(w) <==> shows(clients, e.0, w)
}

/// Whether a client with the given tags, if there is to be one, is
/// visible on the tags `key`.
pub open spec fn joins(tags: Option<Set<Tag>>, key: Set<Tag>) -> bool {
    tags matches Some(ts) && meet(ts, key)
}

/// What becomes of one tree when a window settles: the window is added
/// where it is to be seen, and removed where not.
pub open spec fn tree_step(
    before: TreeView,
    after: TreeView,
    window: Window,
    seen: bool,
    focus: bool,
    bias: InsertBias,
) -> bool {
    if seen {
        before.add_result(after, window, focus, bias, SplitDirection::Vertical)
    } else {
        before.remove_result(after, window)
    }
}

/// The entries whose tree is not empty, in order.
pub open spec fn nonempty(entries: Seq<(Set<Tag>, TreeView)>) -> Seq<(Set<Tag>, TreeView)> {
    entries.filter(|e: (Set<Tag>, TreeView)| e.1.root is Some)
}

/// `mid` holds, for each entry of `before`, what its tree becomes when
/// `window` settles as a client with the tags `tags`, or as no client.
pub open spec fn stepped(
    before: Seq<(Set<Tag>, TreeView)>,
    mid: Seq<(Set<Tag>, TreeView)>,
    window: Window,
    tags: Option<Set<Tag>>,
    focus: bool,
    bias: InsertBias,
) -> bool {
    &&& mid.len() == before.len()
    &&& forall|i: int|
        0 <= i < mid.len() ==> (#[trigger] mid[i]).0 == before[i].0 && mid[i].1.wf() && tree_step(
            before[i].1,
            mid[i].1,
            window,
            joins(tags, before[i].0),
            focus,
            bias,
        )
}

/// `after` is the order that `before` becomes when `window` settles:
/// every tree takes its step, and the trees left empty are dropped.
pub open spec fn settled(
    before: Seq<(Set<Tag>, TreeView)>,
    after: Seq<(Set<Tag>, TreeView)>,
    window: Window,
    tags: Option<Set<Tag>>,
    focus: bool,
    bias: InsertBias,
) -> bool {
    exists|mid: Seq<(Set<Tag>, TreeView)>|
        #[trigger] stepped(before, mid, window, tags, focus, bias) && after == nonempty(mid)
}

/// The bias with which a new client goes into the trees: before the
/// reference for a slave, after it for any other.
pub open spec fn bias_of(as_slave: bool) -> InsertBias {
    if as_slave {
        InsertBias::NextToLeft
    } else {
        InsertBias::NextToRight
    }
}

/// `after` is the order that `before` becomes when `window` leaves every
/// tree, and the trees left empty are dropped.
pub open spec fn cleared(
    before: Seq<(Set<Tag>, TreeView)>,
    after: Seq<(Set<Tag>, TreeView)>,
    window: Window,
) -> bool {
    settled(before, after, window, None, false, InsertBias::NextToRight)
}

/// A way from the focused client to another one of its view.
#[derive(Clone, Copy, Debug, PartialEq, Eq, Structural)]
pub enum Motion {
    /// to the next in the order of the leaves, from the last to the first
    Next,
    /// to the one before in the order of the leaves, from the first to the last
    Prev,
    /// to the neighbour on the left, as the layout has it
    Left,
    /// to the neighbour on the right, as the layout has it
    Right,
    /// to the neighbour above, as the layout has it
    Top,
    /// to the neighbour below, as the layout has it
    Bottom,
    /// to the first in the order of the leaves
    Master,
}

/// The position that a motion leads to from position `cur` among `len`
/// clients.
pub open spec fn picked<L: Layout>(motion: Motion, layout: L, cur: usize, len: usize) -> Option<usize> {
    let max = (len - 1) as usize;
    match motion {
        Motion::Next => Some(
            if cur + 1 >= len {
                0usize
            } else {
                (cur + 1) as usize
            },
        ),
        Motion::Prev => Some(
            if cur == 0 {
                max
            } else {
                (cur - 1) as usize
            },
        ),
        Motion::Left => layout.left_of(cur, max),
        Motion::Right => layout.right_of(cur, max),
        Motion::Top => layout.above(cur, max),
        Motion::Bottom => layout.below(cur, max),
        Motion::Master => Some(0usize),
    }
}

/// Position `k` is the first at which `w` stands in the list.
pub open spec fn stands_first(leaves: Seq<Window>, w: Window, k: int) -> bool {
    &&& 0 <= k < leaves.len()
    &&& leaves[k] == w
    &&& forall|j: int| 0 <= j < k ==> leaves[j] != w
}

/// The first position of `w` in the list.
pub open spec fn place_of(leaves: Seq<Window>, w: Window) -> Option<int> {
    if exists|k: int| stands_first(leaves, w, k) {
        Some(choose|k: int| stands_first(leaves, w, k))
    } else {
        None
    }
}

/// The window that a motion leads to from the focused window of a tree:
/// the one at the picked position in the order of the leaves, if that is
/// a position and another one than that of the focused window.
pub open spec fn goal<L: Layout>(tree: TreeView, motion: Motion, layout: L) -> Option<(Window, Window)> {
    match tree.focused_window() {
        Some(from) => match place_of(tree.leaves(), from) {
            Some(cur) => {
                let len = tree.leaves().len();
                if len > usize::MAX {
                    None
                } else {
                    match picked(motion, layout, cur as usize, len as usize) {
                        Some(n) => if n < len && n != cur {
                            Some((from, tree.leaves()[n as int]))
                        } else {
                            None
                        },
                        None => None,
                    }
                }
            },
            None => None,
        },
        None => None,
    }
}

/// The tree after a motion: the focus on the window that the motion leads
/// to, or that window and the focused one in each other's place.
pub open spec fn after_motion<L: Layout>(tree: TreeView, motion: Motion, layout: L, swap: bool) -> TreeView {
    match goal(tree, motion, layout) {
        Some((from, to)) => if swap {
            if from != to && tree.contains_window(from) && tree.contains_window(to) {
                tree.exchanged(from, to)
            } else {
                tree
            }
        } else {
            if tree.contains_window(to) {
                tree.focused_on(to)
            } else {
                tree
            }
        },
        None => tree,
    }
}

impl ClientSetView {
    /// The client set with another tree in entry `i`.
    pub open spec fn with_tree(self, i: int, tree: TreeView) -> ClientSetView {
        ClientSetView { clients: self.clients, order: self.order.update(i, (self.order[i].0, tree)) }
    }

    /// The client set after a motion in the view on `tags`; nothing
    /// changes where the view has no tree.
    pub open spec fn moved<L: Layout>(self, tags: Set<Tag>, motion: Motion, layout: L, swap: bool) -> ClientSetView {
        if exists|i: int| self.is_entry(i, tags) {
            let i = choose|i: int| self.is_entry(i, tags);
            self.with_tree(i, after_motion(self.order[i].1, motion, layout, swap))
        } else {
            self
        }
    }

    /// Every client is filed under its own window.
    pub open spec fn keyed(self) -> bool {
        forall|w: Window| self.clients.contains_key(w) ==> (#[trigger] self.clients[w]).id() == w
    }

    /// No two entries of the order are about the same tags.
    pub open spec fn keys_distinct(self) -> bool {
        forall|i: int, j: int|
            0 <= i < j < self.order.len() ==> (#[trigger] self.order[i]).0 != (
            #[trigger] self.order[j]).0
    }

    /// The tree of entry `i` is well-formed and not empty, and its leaves
    /// are the windows of the clients visible on the tags of the entry.
    pub open spec fn entry_ok(self, i: int) -> bool {
        &&& self.order[i].1.wf()
        &&& self.order[i].1.root is Some
        &&& entry_shows(self.clients, self.order[i])
    }

    /// The invariant of a client set.
    pub open spec fn wf(self) -> bool {
        &&& self.clients.dom().finite()
        &&& self.keyed()
        &&& self.keys_distinct()
        &&& forall|i: int| 0 <= i < self.order.len() ==> #[trigger] self.entry_ok(i)
    }

    /// Entry `i` is the one about `tags`.
    pub open spec fn is_entry(self, i: int, tags: Set<Tag>) -> bool {
        0 <= i < self.order.len() && self.order[i].0 == tags
    }

    /// Among distinct keys the entry about `tags` is the one that
    /// `tree_of` gives.
    pub proof fn lemma_tree_of(self, i: int, tags: Set<Tag>)
        requires
            self.keys_distinct(),
            self.is_entry(i, tags),
        ensures
            self.tree_of(tags) == Some(self.order[i].1),
    {
        let j = choose|j: int| self.is_entry(j, tags);
        if i < j {
            assert(self.order[i].0 != self.order[j].0);
        } else if j < i {
            assert(self.order[j].0 != self.order[i].0);
        }
    }

    /// The tree that orders the clients seen on `tags`, if the view has one.
    pub open spec fn tree_of(self, tags: Set<Tag>) -> Option<TreeView> {
        if exists|i: int| self.is_entry(i, tags) {
            Some(self.order[choose|i: int| self.is_entry(i, tags)].1)
        } else {
            None
        }
    }
}

/// The entries kept by `nonempty` after one more entry.
pub proof fn lemma_nonempty_push(entries: Seq<(Set<Tag>, TreeView)>, e: (Set<Tag>, TreeView))
    ensures
        nonempty(entries.push(e)) == (if e.1.root is Some {
            nonempty(entries).push(e)
        } else {
            nonempty(entries)
        }),
{
    reveal_with_fuel(Seq::filter, 2);
    assert(entries.push(e).drop_last() =~= entries);
}

/// `x` is an entry of the list.
pub open spec fn among(entries: Seq<(Set<Tag>, TreeView)>, x: (Set<Tag>, TreeView)) -> bool {
    exists|i: int| 0 <= i < entries.len() && entries[i] == x
}

/// `x` and `y` are entries of the list, `x` before `y`.
pub open spec fn in_order(
    entries: Seq<(Set<Tag>, TreeView)>,
    x: (Set<Tag>, TreeView),
    y: (Set<Tag>, TreeView),
) -> bool {
    exists|i: int, j: int| 0 <= i < j < entries.len() && entries[i] == x && entries[j] == y
}

/// Each entry kept by `nonempty` is one of the entries, with a tree that
/// is not empty; entries are kept in their order.
pub proof fn lemma_nonempty_from(entries: Seq<(Set<Tag>, TreeView)>)
    ensures
        forall|a: int|
            0 <= a < nonempty(entries).len() ==> (#[trigger] nonempty(entries)[a]).1.root is Some
                && among(entries, nonempty(entries)[a]),
        forall|a: int, b: int|
            0 <= a < b < nonempty(entries).len() ==> in_order(
                entries,
                #[trigger] nonempty(entries)[a],
                #[trigger] nonempty(entries)[b],
            ),
        forall|i: int|
            0 <= i < entries.len() && (#[trigger] entries[i]).1.root is Some ==> among(
                nonempty(entries),
                entries[i],
            ),
        nonempty(entries).len() <= entries.len(),
    decreases entries.len(),
{
    if entries.len() == 0 {
        assert(nonempty(entries) =~= Seq::<(Set<Tag>, TreeView)>::empty()) by {
            reveal_with_fuel(Seq::filter, 2);
        }
    } else {
        let front = entries.drop_last();
        let e = entries.last();
        lemma_nonempty_from(front);
        lemma_nonempty_push(front, e);
        assert(front.push(e) =~= entries);
        let kept = nonempty(entries);
        let kept_front = nonempty(front);
        assert forall|a: int| 0 <= a < kept.len() implies (#[trigger] kept[a]).1.root is Some
            && among(entries, kept[a]) by {
            if a < kept_front.len() {
                assert(kept[a] == kept_front[a]);
                assert(among(front, kept_front[a]));
                let i = choose|i: int| 0 <= i < front.len() && front[i] == kept_front[a];
                assert(entries[i] == kept[a]);
            } else {
                assert(entries[entries.len() - 1] == kept[a]);
            }
        }
        assert forall|a: int, b: int| 0 <= a < b < kept.len() implies in_order(
            entries,
            #[trigger] kept[a],
            #[trigger] kept[b],
        ) by {
            assert(kept[a] == kept_front[a]);
            if b < kept_front.len() {
                assert(kept[b] == kept_front[b]);
                assert(in_order(front, kept_front[a], kept_front[b]));
                let (i, j) = choose|i: int, j: int|
                    0 <= i < j < front.len() && front[i] == kept_front[a] && front[j]
                        == kept_front[b];
                assert(entries[i] == kept[a] && entries[j] == kept[b]);
            } else {
                assert(among(front, kept_front[a]));
                let i = choose|i: int| 0 <= i < front.len() && front[i] == kept_front[a];
                assert(entries[i] == kept[a] && entries[entries.len() - 1] == kept[b]);
            }
        }
        assert forall|i: int|
            0 <= i < entries.len() && (#[trigger] entries[i]).1.root is Some implies among(
            kept,
            entries[i],
        ) by {
            if i < front.len() {
                assert(front[i] == entries[i]);
                assert(among(kept_front, front[i]));
                let a = choose|a: int| 0 <= a < kept_front.len() && kept_front[a] == front[i];
                assert(kept[a] == entries[i]);
            } else {
                assert(kept[kept.len() - 1] == entries[i]);
            }
        }
    }
}

/// In a well-formed client set a window has a leaf in the tree of a view
/// exactly if it is the window of a client whose tags meet the tags of
/// the view, and the order of the leaves lists just these windows, each
/// once.
pub proof fn lemma_tag_inclusion(cs: ClientSetView, i: int, w: Window)
    requires
        cs.wf(),
        0 <= i < cs.order.len(),
    ensures
        cs.order[i].1.contains_window(w) <==> cs.clients.contains_key(w) && meet(
            cs.clients[w].tag_set(),
            cs.order[i].0,
        ),
        cs.order[i].1.leaves().contains(w) <==> cs.order[i].1.contains_window(w),
        cs.order[i].1.leaves().no_duplicates(),
{
    assert(cs.entry_ok(i));
    crate::wm::tree_order::lemma_leaves_list_windows(cs.order[i].1);
}

/// In a well-formed client set every node of every tree is linked with
/// its parent and its children in both directions, every leaf stands for
/// the window of a client, and every inner node has two children or more.
pub proof fn lemma_tree_invariant(cs: ClientSetView, i: int, slot: usize)
    requires
        cs.wf(),
        0 <= i < cs.order.len(),
        cs.order[i].1.live(slot),
    ensures
        ({
            let tree = cs.order[i].1;
            let node = tree.nodes[slot];
            &&& node is Client ==> cs.clients.contains_key(node->window)
            &&& match node.parent() {
                Some(p) => tree.live(p) && tree.nodes[p] is Split && tree.nodes[p].children().contains(
                    slot,
                ),
                None => tree.root == Some(slot),
            }
            &&& forall|k: int|
                0 <= k < node.children().len() ==> tree.live(#[trigger] node.children()[k])
                    && tree.nodes[node.children()[k]].parent() == Some(slot)
            &&& node is Split ==> node.children().len() >= 2 && node.children().no_duplicates()
        }),
{
    assert(cs.entry_ok(i));
    let tree = cs.order[i].1;
    assert(tree.up_ok(slot));
    if tree.nodes[slot] is Client {
        assert(tree.is_leaf_of(slot, tree.nodes[slot]->window));
        assert(tree.contains_window(tree.nodes[slot]->window));
    }
}

/// Where no tree is empty, `nonempty` keeps every entry.
pub proof fn lemma_nonempty_all(entries: Seq<(Set<Tag>, TreeView)>)
    requires
        forall|i: int| 0 <= i < entries.len() ==> (#[trigger] entries[i]).1.root is Some,
    ensures
        nonempty(entries) == entries,
    decreases entries.len(),
{
    if entries.len() == 0 {
        assert(nonempty(entries) =~= entries) by {
            reveal_with_fuel(Seq::filter, 2);
        }
    } else {
        let front = entries.drop_last();
        assert forall|i: int| 0 <= i < front.len() implies (#[trigger] front[i]).1.root is Some by {
            assert(front[i] == entries[i]);
        }
        lemma_nonempty_all(front);
        lemma_nonempty_push(front, entries.last());
        assert(front.push(entries.last()) =~= entries);
    }
}

/// Adding a client and removing it again leaves a client set as it was:
/// the clients are those from before, and so is every tree, its focus and
/// selection included. This holds where the window is new to the client
/// set and, in each tree that the client joins, the focus finds its way
/// back (as it always does for a client added as a slave).
pub proof fn lemma_add_remove_restores(
    before: ClientSetView,
    added: ClientSetView,
    removed: ClientSetView,
    client: Client,
    as_slave: bool,
)
    requires
        before.wf(),
        !before.clients.contains_key(client.id()),
        added.clients == before.clients.insert(client.id(), client),
        settled(
            before.order,
            added.order,
            client.id(),
            Some(client.tag_set()),
            !as_slave,
            bias_of(as_slave),
        ),
        removed.clients == added.clients.remove(client.id()),
        cleared(added.order, removed.order, client.id()),
        forall|i: int|
            0 <= i < before.order.len() && meet(client.tag_set(), (#[trigger] before.order[i]).0)
                ==> before.order[i].1.restorable(!as_slave, bias_of(as_slave)),
    ensures
        removed == before,
{
    let w = client.id();
    let tags = Some(client.tag_set());
    let focus = !as_slave;
    let bias = bias_of(as_slave);
    let mid1 = choose|mid: Seq<(Set<Tag>, TreeView)>|
        #[trigger] stepped(before.order, mid, w, tags, focus, bias) && added.order == nonempty(
            mid,
        );
    assert forall|i: int| 0 <= i < mid1.len() implies (#[trigger] mid1[i]).1.root is Some by {
        assert(before.entry_ok(i));
        let t = before.order[i].1;
        assert(!shows(before.clients, before.order[i].0, w));
        assert(!t.contains_window(w));
        assert(tree_step(t, mid1[i].1, w, joins(tags, before.order[i].0), focus, bias));
        if joins(tags, before.order[i].0) {
            lemma_add_windows(t, mid1[i].1, w, focus, bias, SplitDirection::Vertical);
        }
    }
    lemma_nonempty_all(mid1);
    let mid2 = choose|mid: Seq<(Set<Tag>, TreeView)>|
        #[trigger] stepped(added.order, mid, w, None, false, InsertBias::NextToRight)
            && removed.order == nonempty(mid);
    assert forall|i: int| 0 <= i < mid2.len() implies #[trigger] mid2[i] == before.order[i] by {
        assert(before.entry_ok(i));
        let t = before.order[i].1;
        assert(!shows(before.clients, before.order[i].0, w));
        assert(!t.contains_window(w));
        assert(mid1[i].0 == before.order[i].0);
        assert(tree_step(t, mid1[i].1, w, joins(tags, before.order[i].0), focus, bias));
        assert(mid2[i].0 == added.order[i].0);
        assert(tree_step(
            mid1[i].1,
            mid2[i].1,
            w,
            joins(None, added.order[i].0),
            false,
            InsertBias::NextToRight,
        ));
        if joins(tags, before.order[i].0) {
            lemma_add_remove_roundtrip(
                t,
                mid1[i].1,
                mid2[i].1,
                w,
                focus,
                bias,
                SplitDirection::Vertical,
            );
        }
    }
    assert(mid2 =~= before.order);
    assert forall|i: int| 0 <= i < mid2.len() implies (#[trigger] mid2[i]).1.root is Some by {
        assert(before.entry_ok(i));
    }
    lemma_nonempty_all(mid2);
    assert(removed.clients =~= before.clients);
}

/// When a window settles in a well-formed client set, as the window of
/// the client `client` or of no client, the client set stays well-formed.
pub proof fn lemma_settled_wf(
    before: ClientSetView,
    after: ClientSetView,
    window: Window,
    client: Option<Client>,
    focus: bool,
    bias: InsertBias,
)
    requires
        before.wf(),
        client matches Some(c) ==> c.id() == window,
        after.clients == (match client {
            Some(c) => before.clients.insert(window, c),
            None => before.clients.remove(window),
        }),
        settled(
            before.order,
            after.order,
            window,
            match client {
                Some(c) => Some(c.tag_set()),
                None => None,
            },
            focus,
            bias,
        ),
    ensures
        after.wf(),
{
    let tags = match client {
        Some(c) => Some(c.tag_set()),
        None => None,
    };
    let mid = choose|mid: Seq<(Set<Tag>, TreeView)>|
        #[trigger] stepped(before.order, mid, window, tags, focus, bias) && after.order
            == nonempty(mid);
    lemma_nonempty_from(mid);
    assert forall|i: int| 0 <= i < mid.len() implies #[trigger] entry_shows(
        after.clients,
        mid[i],
    ) by {
        assert(before.entry_ok(i));
        let seen = joins(tags, before.order[i].0);
        assert(tree_step(before.order[i].1, mid[i].1, window, seen, focus, bias));
        if seen {
            lemma_add_windows(
                before.order[i].1,
                mid[i].1,
                window,
                focus,
                bias,
                SplitDirection::Vertical,
            );
        } else {
            lemma_remove_windows(before.order[i].1, mid[i].1, window);
        }
        assert forall|w: Window| #[trigger]
            mid[i].1.contains_window(w) <==> shows(after.clients, mid[i].0, w) by {
            assert(mid[i].1.windows().contains(w) == mid[i].1.contains_window(w));
            assert(before.order[i].1.windows().contains(w) == before.order[i].1.contains_window(
                w,
            ));
            if w != window {
                assert(shows(after.clients, mid[i].0, w) == shows(
                    before.clients,
                    before.order[i].0,
                    w,
                ));
            }
        }
    }
    assert forall|a: int| 0 <= a < after.order.len() implies #[trigger] after.entry_ok(a) by {
        assert(among(mid, after.order[a]));
        let i = choose|i: int| 0 <= i < mid.len() && mid[i] == after.order[a];
        assert(mid[i].1.wf());
        assert(entry_shows(after.clients, mid[i]));
    }
    assert(after.keys_distinct()) by {
        assert forall|a: int, b: int| 0 <= a < b < after.order.len() implies (
        #[trigger] after.order[a]).0 != (#[trigger] after.order[b]).0 by {
            assert(in_order(mid, after.order[a], after.order[b]));
            let (i, j) = choose|i: int, j: int|
                0 <= i < j < mid.len() && mid[i] == after.order[a] && mid[j] == after.order[b];
            assert(before.order[i].0 != before.order[j].0);
        }
    }
    assert(after.keyed());
}

/// A client set.
///
/// Managing all direct children of the root window, as well as
/// their orderings on different tagsets. The ordering on different tagsets
/// is organized in a delayed fashion: not all tagsets have an associated
/// client tree. Cleanup is done as soon as clients are removed.
pub struct ClientSet {
    /// All clients.
    clients: HashMap<Window, Client>,
    /// Ordered subsets of clients associated with sets of tags.
    order: Vec<(Tags, SubsetTree)>,
}

impl View for ClientSet {
    type V = ClientSetView;

    closed spec fn view(&self) -> ClientSetView {
        ClientSetView { clients: self.clients@, order: entries_view(self.order@) }
    }
}

impl Default for ClientSet {
    fn default() -> (res: ClientSet)
        ensures
            res.wf(),
            res@.clients == Map::<Window, Client>::empty(),
            res@.order == Seq::<(Set<Tag>, TreeView)>::empty(),
    {
        let res = ClientSet { clients: HashMap::new(), order: Vec::new() };
        assert(res@.order =~= Seq::<(Set<Tag>, TreeView)>::empty());
        res
    }
}

impl ClientSet {
    /// The invariant of a client set.
    pub open spec fn wf(&self) -> bool {
        self@.wf()
    }

    /// Get a client that corresponds to a given window.
    pub fn get_client_by_window(&self, window: Window) -> (res: Option<&Client>)
        ensures
            res == (if self@.clients.contains_key(window) {
                Some(&self@.clients[window])
            } else {
                None
            }),
    {
        self.clients.get(&window)
    }

    /// Lets every tree of the order take its step for `window`, and drops
    /// the trees left empty.
    fn settle(&mut self, window: Window, tags: Option<&Tags>, focus: bool, bias: InsertBias)
        requires
            forall|i: int| 0 <= i < old(self)@.order.len() ==> (#[trigger] old(self)@.order[i]).1.wf(),
        ensures
            final(self)@.clients == old(self)@.clients,
            settled(
                old(self)@.order,
                final(self)@.order,
                window,
                match tags {
                    Some(ts) => Some(ts@),
                    None => None,
                },
                focus,
                bias,
            ),
    {
        let ghost before = self@.order;
        let ghost tag_set = match tags {
            Some(ts) => Some(ts@),
            None => None,
        };
        let mut pending: Vec<(Tags, SubsetTree)> = Vec::new();
        std::mem::swap(&mut self.order, &mut pending);
        reverse(&mut pending);
        let mut kept: Vec<(Tags, SubsetTree)> = Vec::new();
        let ghost mid: Seq<(Set<Tag>, TreeView)> = Seq::empty();
        proof {
            assert(nonempty(mid) =~= Seq::<(Set<Tag>, TreeView)>::empty()) by {
                reveal_with_fuel(Seq::filter, 2);
            }
            assert(entries_view(kept@) =~= nonempty(mid));
        }
        while pending.len() > 0
            invariant
                self.clients == old(self).clients,
                tag_set == (match tags {
                    Some(ts) => Some(ts@),
                    None => None,
                }),
                mid.len() + pending@.len() == before.len(),
                forall|k: int|
                    0 <= k < pending@.len() ==> (#[trigger] pending@[k].0)@ == before[before.len()
                        - 1 - k].0 && pending@[k].1@ == before[before.len() - 1 - k].1,
                forall|i: int| 0 <= i < before.len() ==> (#[trigger] before[i]).1.wf(),
                stepped(before.take(mid.len() as int), mid, window, tag_set, focus, bias),
                entries_view(kept@) == nonempty(mid),
            decreases pending.len(),
        {
            let ghost n = mid.len() as int;
            let entry = pending.pop().unwrap();
            let key = entry.0;
            let mut tree = entry.1;
            assert(key@ == before[n].0 && tree@ == before[n].1);
            let seen = match tags {
                Some(ts) => ts.intersects(&key),
                None => false,
            };
            assert(seen == joins(tag_set, before[n].0));
            if seen {
                tree.add(window, focus, bias, SplitDirection::Vertical);
            } else {
                tree.remove(window);
            }
            let ghost step = (key@, tree@);
            let ghost old_mid = mid;
            proof {
                mid = mid.push(step);
                lemma_nonempty_push(old_mid, step);
                assert(before.take(n + 1) =~= before.take(n).push(before[n]));
                assert forall|i: int| 0 <= i < mid.len() implies (#[trigger] mid[i]).0
                    == before.take(n + 1)[i].0 && mid[i].1.wf() && tree_step(
                    before.take(n + 1)[i].1,
                    mid[i].1,
                    window,
                    joins(tag_set, before.take(n + 1)[i].0),
                    focus,
                    bias,
                ) by {
                    if i < n {
                        assert(mid[i] == old_mid[i]);
                        assert(before.take(n)[i] == before.take(n + 1)[i]);
                    }
                }
            }
            if !tree.is_empty() {
                let ghost old_kept = entries_view(kept@);
                kept.push((key, tree));
                assert(entries_view(kept@) =~= old_kept.push(step));
            }
        }
        proof {
            assert(before.take(mid.len() as int) =~= before);
        }
        self.order = kept;
    }

    /// Add a new client to the client store.
    ///
    /// Adds the client object to the clients and puts its window into the
    /// tree of every view that the client is visible on: after the
    /// reference leaf and with the focus, or, as a slave, before the
    /// reference leaf and without the focus. A client that takes the place
    /// of one with the same window leaves the trees that it is not
    /// visible on.
    pub fn add(&mut self, client: Client, as_slave: bool)
        requires
            old(self).wf(),
        ensures
            final(self).wf(),
            final(self)@.clients == old(self)@.clients.insert(client.id(), client),
            settled(
                old(self)@.order,
                final(self)@.order,
                client.id(),
                Some(client.tag_set()),
                !as_slave,
                bias_of(as_slave),
            ),
    {
        let window = client.window;
        let bias = if as_slave {
            InsertBias::NextToLeft
        } else {
            InsertBias::NextToRight
        };
        proof {
            assert forall|i: int| 0 <= i < self@.order.len() implies (#[trigger] self@.order[i]).1.wf() by {
                assert(self@.entry_ok(i));
            }
        }
        self.settle(window, Some(&client.tags), !as_slave, bias);
        self.clients.insert(window, client);
        proof {
            lemma_settled_wf(old(self)@, self@, window, Some(client), !as_slave, bias);
        }
    }

    /// Remove the client corresponding to a window.
    ///
    /// Removes the client object and takes its window out of every tree,
    /// returning whether a client has actually been removed.
    pub fn remove(&mut self, window: Window) -> (removed: bool)
        requires
            old(self).wf(),
        ensures
            final(self).wf(),
            removed == old(self)@.clients.contains_key(window),
            if removed {
                &&& final(self)@.clients == old(self)@.clients.remove(window)
                &&& cleared(old(self)@.order, final(self)@.order, window)
            } else {
                final(self)@ == old(self)@
            },
    {
        if self.clients.remove(&window).is_some() {
            proof {
                assert forall|i: int| 0 <= i < self@.order.len() implies (
                #[trigger] self@.order[i]).1.wf() by {
                    assert(old(self)@.entry_ok(i));
                }
            }
            self.settle(window, None, false, InsertBias::NextToRight);
            proof {
                lemma_settled_wf(old(self)@, self@, window, None, false, InsertBias::NextToRight);
            }
            true
        } else {
            proof {
                assert(self@.clients =~= old(self)@.clients);
            }
            false
        }
    }

    /// Apply a function to the client corresponding to a window.
    ///
    /// Lets the function change the client and then brings the trees up to
    /// date: the window leaves the trees of the views that the client is
    /// no longer visible on, and joins those it is newly visible on, after
    /// the reference leaf and without taking the focus. Returns the
    /// window manager command that the function returned, or nothing if
    /// there is no such client. The client stays filed under its window
    /// whatever the function makes of it.
    pub fn update_client<F: Fn(&mut Client) -> WmCommand>(&mut self, window: Window, func: F) -> (res:
        Option<WmCommand>)
        requires
            old(self).wf(),
            forall|c: &mut Client| call_requires(func, (c,)),
        ensures
            final(self).wf(),
            res is Some == old(self)@.clients.contains_key(window),
            if res is Some {
                &&& final(self)@.clients.contains_key(window)
                &&& final(self)@.clients == old(self)@.clients.insert(
                    window,
                    final(self)@.clients[window],
                )
                &&& exists|c: &mut Client|
                    {
                        &&& *c == old(self)@.clients[window]
                        &&& #[trigger] call_ensures(func, (c,), res->0)
                        &&& final(self)@.clients[window].tag_set() == final(c).tag_set()
                        &&& final(self)@.clients[window].properties() == final(c).properties()
                    }
                &&& final(self)@.clients[window].id() == window
                &&& settled(
                    old(self)@.order,
                    final(self)@.order,
                    window,
                    Some(final(self)@.clients[window].tag_set()),
                    false,
                    InsertBias::NextToRight,
                )
            } else {
                final(self)@ == old(self)@
            },
    {
        match self.clients.remove(&window) {
            Some(client) => {
                let mut client = client;
                let ghost before = client;
                let cmd = func(&mut client);
                let ghost changed = client;
                proof {
                    assert(before == old(self)@.clients[window]);
                    assert(exists|c: &mut Client|
                        *c == before && *final(c) == changed && #[trigger] call_ensures(
                            func,
                            (c,),
                            cmd,
                        ));
                }
                client.window = window;
                proof {
                    assert(client.tag_set() == changed.tag_set());
                    assert(client.properties() == changed.properties());
                }
                proof {
                    assert forall|i: int| 0 <= i < self@.order.len() implies (
                    #[trigger] self@.order[i]).1.wf() by {
                        assert(old(self)@.entry_ok(i));
                    }
                }
                self.settle(window, Some(&client.tags), false, InsertBias::NextToRight);
                self.clients.insert(window, client);
                proof {
                    assert(self@.clients =~= old(self)@.clients.insert(window, client));
                    lemma_settled_wf(
                        old(self)@,
                        self@,
                        window,
                        Some(client),
                        false,
                        InsertBias::NextToRight,
                    );
                    let c = choose|c: &mut Client|
                        *c == before && *final(c) == changed && #[trigger] call_ensures(
                            func,
                            (c,),
                            cmd,
                        );
                    let res = Some(cmd);
                    assert(*c == old(self)@.clients[window] && call_ensures(func, (c,), res->0)
                        && self@.clients[window].tag_set() == final(c).tag_set()
                        && self@.clients[window].properties() == final(c).properties());
                }
                Some(cmd)
            },
            None => {
                proof {
                    assert(self@.clients =~= old(self)@.clients);
                }
                None
            },
        }
    }

    /// Gives the client of a window new properties and, with a list of
    /// tags that is not empty, new tags, and brings the trees up to date as
    /// `update_client` does. Tells whether there is such a client.
    pub fn refresh_client(&mut self, window: Window, props: ClientProps, tags: &[Tag]) -> (found: bool)
        requires
            old(self).wf(),
        ensures
            final(self).wf(),
            found == old(self)@.clients.contains_key(window),
            if found {
                &&& final(self)@.clients.contains_key(window)
                &&& final(self)@.clients == old(self)@.clients.insert(
                    window,
                    final(self)@.clients[window],
                )
                &&& final(self)@.clients[window].properties() == props
                &&& final(self)@.clients[window].tag_set() == (if tags@.len() > 0 {
                    tags@.to_set()
                } else {
                    old(self)@.clients[window].tag_set()
                })
                &&& settled(
                    old(self)@.order,
                    final(self)@.order,
                    window,
                    Some(final(self)@.clients[window].tag_set()),
                    false,
                    InsertBias::NextToRight,
                )
            } else {
                final(self)@ == old(self)@
            },
    {
        match self.clients.remove(&window) {
            Some(client) => {
                let mut client = client;
                client.props = props;
                client.set_tags(tags);
                client.window = window;
                proof {
                    assert forall|i: int| 0 <= i < self@.order.len() implies (
                    #[trigger] self@.order[i]).1.wf() by {
                        assert(old(self)@.entry_ok(i));
                    }
                }
                self.settle(window, Some(&client.tags), false, InsertBias::NextToRight);
                self.clients.insert(window, client);
                proof {
                    assert(self@.clients =~= old(self)@.clients.insert(window, client));
                    lemma_settled_wf(
                        old(self)@,
                        self@,
                        window,
                        Some(client),
                        false,
                        InsertBias::NextToRight,
                    );
                }
                true
            },
            None => {
                proof {
                    assert(self@.clients =~= old(self)@.clients);
                }
                false
            },
        }
    }

    /// The windows of all clients, each once, in no particular order.
    pub fn windows(&self) -> (res: Vec<Window>)
        ensures
            res@.to_set() == self@.clients.dom(),
            res@.no_duplicates(),
    {
        window_list(&self.clients)
    }

    /// The position of the entry about `tags` in the order.
    fn find_entry(&self, tags: &Tags) -> (res: Option<usize>)
        ensures
            match res {
                Some(i) => self@.is_entry(i as int, tags@),
                None => forall|i: int| !self@.is_entry(i, tags@),
            },
    {
        let mut i: usize = 0;
        while i < self.order.len()
            invariant
                i <= self.order@.len(),
                forall|k: int| 0 <= k < i ==> !self@.is_entry(k, tags@),
            decreases self.order@.len() - i,
        {
            if self.order[i].0.same(tags) {
                return Some(i);
            }
            i = i + 1;
        }
        None
    }

    /// Get the currently focused window on a set of tags.
    pub fn get_focused_window(&self, tags: &Tags) -> (res: Option<Window>)
        requires
            self.wf(),
        ensures
            res == (match self@.tree_of(tags@) {
                Some(tree) => tree.focused_window(),
                None => None,
            }),
    {
        match self.find_entry(tags) {
            Some(i) => {
                proof {
                    self@.lemma_tree_of(i as int, tags@);
                    assert(self@.entry_ok(i as int));
                }
                self.order[i].1.get_focused()
            },
            None => None,
        }
    }

    /// The windows of the view on `tags` in the order of their leaves; no
    /// windows where the view has no tree. Where it has one, these are the
    /// windows of the clients visible on `tags`, each once.
    pub fn windows_on(&self, tags: &Tags) -> (res: Vec<Window>)
        requires
            self.wf(),
        ensures
            res@ == (match self@.tree_of(tags@) {
                Some(tree) => tree.leaves(),
                None => Seq::<Window>::empty(),
            }),
            res@.no_duplicates(),
            self@.tree_of(tags@) is Some ==> forall|w: Window|
                res@.contains(w) <==> shows(self@.clients, tags@, w),
    {
        match self.find_entry(tags) {
            Some(i) => {
                proof {
                    self@.lemma_tree_of(i as int, tags@);
                    assert(self@.entry_ok(i as int));
                }
                let res = self.order[i].1.leaves();
                proof {
                    let tree = self@.order[i as int].1;
                    assert forall|w: Window| res@.contains(w) <==> shows(
                        self@.clients,
                        tags@,
                        w,
                    ) by {
                        assert(tree.contains_window(w) <==> shows(self@.clients, tags@, w));
                    }
                }
                res
            },
            None => Vec::new(),
        }
    }

    /// Makes sure that the view on `tags` has a tree, if any client is
    /// visible on it: a tree that a view lacks is built from the windows of
    /// the clients visible on it, in no particular order, and joins the
    /// order as its last entry. Tells whether the view has a tree now.
    pub fn materialize(&mut self, tags: &Tags) -> (res: bool)
        requires
            old(self).wf(),
        ensures
            final(self).wf(),
            final(self)@.clients == old(self)@.clients,
            res == final(self)@.tree_of(tags@) is Some,
            res == (exists|w: Window| shows(old(self)@.clients, tags@, w)),
            if old(self)@.tree_of(tags@) is None && res {
                &&& final(self)@.order.drop_last() == old(self)@.order
                &&& final(self)@.order.last().0 == tags@
            } else {
                final(self)@ == old(self)@
            },
    {
        if let Some(i) = self.find_entry(tags) {
            proof {
                self@.lemma_tree_of(i as int, tags@);
                assert(self@.entry_ok(i as int));
                let tree = self@.order[i as int].1;
                if tree.root is Some {
                    let f = tree.focused->0;
                    assert(tree.is_leaf_of(f, tree.nodes[f]->window));
                    assert(tree.contains_window(tree.nodes[f]->window));
                }
            }
            return true;
        }
        let windows = window_list(&self.clients);
        let mut tree = SubsetTree::new();
        let mut k: usize = 0;
        while k < windows.len()
            invariant
                k <= windows@.len(),
                self@ == old(self)@,
                tree.wf(),
                windows@.to_set() == self@.clients.dom(),
                forall|w: Window| #[trigger]
                    tree@.contains_window(w) <==> windows@.take(k as int).contains(w) && shows(
                        self@.clients,
                        tags@,
                        w,
                    ),
            decreases windows@.len() - k,
        {
            let window = windows[k];
            let ghost before = tree@;
            let seen = match self.clients.get(&window) {
                Some(client) => client.match_tags(tags),
                None => false,
            };
            proof {
                assert(windows@.contains(window));
                assert(windows@.to_set().contains(window));
                assert(seen == shows(self@.clients, tags@, window));
            }
            if seen {
                tree.add(window, false, InsertBias::NextToRight, SplitDirection::Vertical);
                proof {
                    lemma_add_windows(
                        before,
                        tree@,
                        window,
                        false,
                        InsertBias::NextToRight,
                        SplitDirection::Vertical,
                    );
                }
            }
            proof {
                let head = windows@.take(k as int);
                assert(windows@.take(k + 1) =~= head.push(window));
                assert forall|w: Window| #[trigger]
                    tree@.contains_window(w) <==> windows@.take(k + 1).contains(w) && shows(
                        self@.clients,
                        tags@,
                        w,
                    ) by {
                    assert(tree@.windows().contains(w) == tree@.contains_window(w));
                    assert(before.windows().contains(w) == before.contains_window(w));
                    if head.contains(w) {
                        let j = head.index_of(w);
                        assert(head.push(window)[j] == w);
                    }
                    if w == window {
                        assert(head.push(window)[head.len() as int] == w);
                    }
                    if head.push(window).contains(w) {
                        let j = head.push(window).index_of(w);
                        if j < head.len() {
                            assert(head[j] == w);
                        }
                    }
                }
            }
            k = k + 1;
        }
        proof {
            assert(windows@.take(k as int) =~= windows@);
            assert forall|w: Window| #[trigger]
                tree@.contains_window(w) <==> shows(self@.clients, tags@, w) by {
                if shows(self@.clients, tags@, w) {
                    assert(windows@.to_set().contains(w));
                }
            }
        }
        if tree.is_empty() {
            proof {
                assert forall|w: Window| !shows(self@.clients, tags@, w) by {
                    if tree@.contains_window(w) {
                        let i = choose|i: usize| tree@.is_leaf_of(i, w);
                        assert(tree@.live(i));
                    }
                }
                assert forall|i: int| !self@.is_entry(i, tags@) by {}
            }
            false
        } else {
            let ghost before = self@;
            let ghost entry = (tags@, tree@);
            self.order.push((tags.clone(), tree));
            proof {
                assert(self@.order =~= before.order.push(entry));
                assert(self@.order.drop_last() =~= before.order);
                assert forall|i: int| 0 <= i < self@.order.len() implies #[trigger] self@.entry_ok(
                    i,
                ) by {
                    if i < before.order.len() {
                        assert(before.entry_ok(i));
                    }
                }
                assert(self@.keys_distinct()) by {
                    assert forall|i: int, j: int| 0 <= i < j < self@.order.len() implies (
                    #[trigger] self@.order[i]).0 != (#[trigger] self@.order[j]).0 by {
                        if j == before.order.len() {
                            assert(!before.is_entry(i, tags@));
                        } else {
                            assert(before.order[i].0 != before.order[j].0);
                        }
                    }
                }
                assert(self@.is_entry(before.order.len() as int, tags@));
                let f = tree@.focused->0;
                assert(tree@.is_leaf_of(f, tree@.nodes[f]->window));
                assert(tree@.contains_window(tree@.nodes[f]->window));
            }
            true
        }
    }

    /// The position that a motion leads to.
    fn pick<L: Layout>(motion: Motion, layout: &L, cur: usize, len: usize) -> (res: Option<usize>)
        requires
            cur < len,
        ensures
            res == picked(motion, *layout, cur, len),
    {
        let max = len - 1;
        match motion {
            Motion::Next => Some(
                if cur + 1 >= len {
                    0
                } else {
                    cur + 1
                },
            ),
            Motion::Prev => Some(
                if cur == 0 {
                    max
                } else {
                    cur - 1
                },
            ),
            Motion::Left => layout.left_window(cur, max),
            Motion::Right => layout.right_window(cur, max),
            Motion::Top => layout.top_window(cur, max),
            Motion::Bottom => layout.bottom_window(cur, max),
            Motion::Master => Some(0),
        }
    }

    /// The focused window of a tree and the window that a motion leads to.
    fn aim<L: Layout>(tree: &SubsetTree, motion: Motion, layout: &L) -> (res: Option<(Window, Window)>)
        requires
            tree.wf(),
        ensures
            res == goal(tree@, motion, *layout),
    {
        let from = match tree.get_focused() {
            Some(from) => from,
            None => {
                return None;
            },
        };
        let leaves = tree.leaves();
        let mut cur: usize = 0;
        while cur < leaves.len() && leaves[cur] != from
            invariant
                cur <= leaves@.len(),
                forall|j: int| 0 <= j < cur ==> leaves@[j] != from,
            decreases leaves@.len() - cur,
        {
            cur = cur + 1;
        }
        if cur == leaves.len() {
            proof {
                assert forall|k: int| !stands_first(leaves@, from, k) by {}
            }
            return None;
        }
        proof {
            assert(stands_first(leaves@, from, cur as int));
            let k = choose|k: int| stands_first(leaves@, from, k);
            assert(k == cur as int) by {
                if k < cur {
                    assert(leaves@[k] != from);
                } else if cur < k {
                    assert(leaves@[cur as int] != from);
                }
            }
        }
        match Self::pick(motion, layout, cur, leaves.len()) {
            Some(n) => {
                if n < leaves.len() && n != cur {
                    Some((from, leaves[n]))
                } else {
                    None
                }
            },
            None => None,
        }
    }

    /// Moves the focus, or the focused window, in the view on `tags`.
    fn go<L: Layout>(&mut self, tags: &Tags, motion: Motion, layout: &L, swap: bool) -> (changed: bool)
        requires
            old(self).wf(),
        ensures
            final(self).wf(),
            final(self)@ == old(self)@.moved(tags@, motion, *layout, swap),
            changed == (final(self)@ != old(self)@),
    {
        let i = match self.find_entry(tags) {
            Some(i) => i,
            None => {
                return false;
            },
        };
        let ghost before = self@;
        proof {
            let chosen = choose|j: int| before.is_entry(j, tags@);
            if chosen < i {
                assert(before.order[chosen].0 != before.order[i as int].0);
            } else if i < chosen {
                assert(before.order[i as int].0 != before.order[chosen].0);
            }
            assert(before.entry_ok(i as int));
        }
        let ghost old_tree = before.order[i as int].1;
        let aim = Self::aim(&self.order[i].1, motion, layout);
        let changed = match aim {
            Some((from, to)) => {
                let tree = &mut self.order[i].1;
                if swap {
                    proof {
                        if from != to && old_tree.contains_window(from) && old_tree.contains_window(
                            to,
                        ) {
                            crate::wm::tree_model::lemma_exchanged_wf(old_tree, from, to);
                            crate::wm::tree_model::lemma_exchanged_differs(old_tree, from, to);
                        }
                    }
                    tree.swap(from, to)
                } else {
                    tree.set_focus(to)
                }
            },
            None => false,
        };
        proof {
            let new_tree = self@.order[i as int].1;
            assert(new_tree == after_motion(old_tree, motion, *layout, swap));
            assert(self@.order =~= before.order.update(i as int, (before.order[i as int].0, new_tree)));
            assert(new_tree.windows() == old_tree.windows()) by {
                if new_tree != old_tree {
                    if swap {
                        match aim {
                            Some((from, to)) => {
                                crate::wm::tree_model::lemma_exchanged_wf(old_tree, from, to);
                            },
                            None => {},
                        }
                    } else {
                        crate::wm::tree_model::lemma_same_windows(old_tree, new_tree);
                    }
                }
            }
            assert forall|k: int| 0 <= k < self@.order.len() implies #[trigger] self@.entry_ok(
                k,
            ) by {
                assert(before.entry_ok(k));
                if k == i {
                    assert forall|w: Window| #[trigger]
                        new_tree.contains_window(w) <==> shows(
                            self@.clients,
                            self@.order[k].0,
                            w,
                        ) by {
                        assert(new_tree.windows().contains(w) == new_tree.contains_window(w));
                        assert(old_tree.windows().contains(w) == old_tree.contains_window(w));
                    }
                }
            }
            assert(self@.keys_distinct()) by {
                assert forall|a: int, b: int| 0 <= a < b < self@.order.len() implies (
                #[trigger] self@.order[a]).0 != (#[trigger] self@.order[b]).0 by {
                    assert(before.order[a].0 != before.order[b].0);
                }
            }
            if !changed {
                assert(self@.order =~= before.order);
            } else {
                assert(self@.order[i as int] != before.order[i as int]);
            }
        }
        changed
    }

    /// Focus next window, returning whether changes have been made.
    pub fn focus_next<L: Layout>(&mut self, tagset: &TagSet<L>) -> (changed: bool)
        requires
            old(self).wf(),
        ensures
            final(self).wf(),
            final(self)@ == old(self)@.moved(tagset.tags@, Motion::Next, tagset.layout, false),
            changed == (final(self)@ != old(self)@),
    {
        self.go(&tagset.tags, Motion::Next, &tagset.layout, false)
    }

    /// Swap with next window, returning whether changes have been made.
    pub fn swap_next<L: Layout>(&mut self, tagset: &TagSet<L>) -> (changed: bool)
        requires
            old(self).wf(),
        ensures
            final(self).wf(),
            final(self)@ == old(self)@.moved(tagset.tags@, Motion::Next, tagset.layout, true),
            changed == (final(self)@ != old(self)@),
    {
        self.go(&tagset.tags, Motion::Next, &tagset.layout, true)
    }

    /// Focus previous window, returning whether changes have been made.
    pub fn focus_prev<L: Layout>(&mut self, tagset: &TagSet<L>) -> (changed: bool)
        requires
            old(self).wf(),
        ensures
            final(self).wf(),
            final(self)@ == old(self)@.moved(tagset.tags@, Motion::Prev, tagset.layout, false),
            changed == (final(self)@ != old(self)@),
    {
        self.go(&tagset.tags, Motion::Prev, &tagset.layout, false)
    }

    /// Swap with previous window, returning whether changes have been made.
    pub fn swap_prev<L: Layout>(&mut self, tagset: &TagSet<L>) -> (changed: bool)
        requires
            old(self).wf(),
        ensures
            final(self).wf(),
            final(self)@ == old(self)@.moved(tagset.tags@, Motion::Prev, tagset.layout, true),
            changed == (final(self)@ != old(self)@),
    {
        self.go(&tagset.tags, Motion::Prev, &tagset.layout, true)
    }

    /// Focus the window to the right, returning whether changes have been
    /// made.
    pub fn focus_right<L: Layout>(&mut self, tagset: &TagSet<L>) -> (changed: bool)
        requires
            old(self).wf(),
        ensures
            final(self).wf(),
            final(self)@ == old(self)@.moved(tagset.tags@, Motion::Right, tagset.layout, false),
            changed == (final(self)@ != old(self)@),
    {
        self.go(&tagset.tags, Motion::Right, &tagset.layout, false)
    }

    /// Swap with the window to the right, returning whether changes have been
    /// made.
    pub fn swap_right<L: Layout>(&mut self, tagset: &TagSet<L>) -> (changed: bool)
        requires
            old(self).wf(),
        ensures
            final(self).wf(),
            final(self)@ == old(self)@.moved(tagset.tags@, Motion::Right, tagset.layout, true),
            changed == (final(self)@ != old(self)@),
    {
        self.go(&tagset.tags, Motion::Right, &tagset.layout, true)
    }

    /// Focus the window to the left, returning whether changes have been made.
    pub fn focus_left<L: Layout>(&mut self, tagset: &TagSet<L>) -> (changed: bool)
        requires
            old(self).wf(),
        ensures
            final(self).wf(),
            final(self)@ == old(self)@.moved(tagset.tags@, Motion::Left, tagset.layout, false),
            changed == (final(self)@ != old(self)@),
    {
        self.go(&tagset.tags, Motion::Left, &tagset.layout, false)
    }

    /// Swap with the window to the left, returning whether changes have been
    /// made.
    pub fn swap_left<L: Layout>(&mut self, tagset: &TagSet<L>) -> (changed: bool)
        requires
            old(self).wf(),
        ensures
            final(self).wf(),
            final(self)@ == old(self)@.moved(tagset.tags@, Motion::Left, tagset.layout, true),
            changed == (final(self)@ != old(self)@),
    {
        self.go(&tagset.tags, Motion::Left, &tagset.layout, true)
    }

    /// Focus the window to the top, returning whether changes have been made.
    pub fn focus_top<L: Layout>(&mut self, tagset: &TagSet<L>) -> (changed: bool)
        requires
            old(self).wf(),
        ensures
            final(self).wf(),
            final(self)@ == old(self)@.moved(tagset.tags@, Motion::Top, tagset.layout, false),
            changed == (final(self)@ != old(self)@),
    {
        self.go(&tagset.tags, Motion::Top, &tagset.layout, false)
    }

    /// Swap with the window to the top, returning whether changes have been
    /// made.
    pub fn swap_top<L: Layout>(&mut self, tagset: &TagSet<L>) -> (changed: bool)
        requires
            old(self).wf(),
        ensures
            final(self).wf(),
            final(self)@ == old(self)@.moved(tagset.tags@, Motion::Top, tagset.layout, true),
            changed == (final(self)@ != old(self)@),
    {
        self.go(&tagset.tags, Motion::Top, &tagset.layout, true)
    }

    /// Focus the window to the bottom, returning whether changes have been
    /// made.
    pub fn focus_bottom<L: Layout>(&mut self, tagset: &TagSet<L>) -> (changed: bool)
        requires
            old(self).wf(),
        ensures
            final(self).wf(),
            final(self)@ == old(self)@.moved(tagset.tags@, Motion::Bottom, tagset.layout, false),
            changed == (final(self)@ != old(self)@),
    {
        self.go(&tagset.tags, Motion::Bottom, &tagset.layout, false)
    }

    /// Swap with the window to the bottom, returning whether changes have been
    /// made.
    pub fn swap_bottom<L: Layout>(&mut self, tagset: &TagSet<L>) -> (changed: bool)
        requires
            old(self).wf(),
        ensures
            final(self).wf(),
            final(self)@ == old(self)@.moved(tagset.tags@, Motion::Bottom, tagset.layout, true),
            changed == (final(self)@ != old(self)@),
    {
        self.go(&tagset.tags, Motion::Bottom, &tagset.layout, true)
    }

    /// Swap with the master window, returning whether changes have been made.
    pub fn swap_master<L: Layout>(&mut self, tagset: &TagSet<L>) -> (changed: bool)
        requires
            old(self).wf(),
        ensures
            final(self).wf(),
            final(self)@ == old(self)@.moved(tagset.tags@, Motion::Master, tagset.layout, true),
            changed == (final(self)@ != old(self)@),
    {
        self.go(&tagset.tags, Motion::Master, &tagset.layout, true)
    }
}

} // verus!
