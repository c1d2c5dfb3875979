//! Tag sets with a layout, and the history of tag sets shown on a screen.

use std::collections::hash_map::Entry;
use std::collections::HashMap;

use vstd::prelude::*;
use vstd::std_specs::hash::*;
use vstd::string::*;

use crate::wm::config::Tag;
use crate::wm::layout::Layout;
use crate::wm::tags::Tags;

verus! {

broadcast use vstd::std_specs::hash::group_hash_axioms;

/// A set of tags with an associated layout.
///
/// Used to determine the set of windows to be shown, as well as their
/// geometries. All clients that match any of the tags in a tagset are shown
/// to the user when that tagset is displayed by the window manager. In that
/// sense, tagsets are views into the space of open clients, with additional
/// parameters attached.
pub struct TagSet<L: Layout> {
    /// tags belonging to tagset
    pub tags: Tags,
    /// the layout used to display clients on the tagset
    pub layout: L,
}

/// The names of the tags with a comma between each two.
pub open spec fn tags_text(tags: Seq<Tag>) -> Seq<char>
    decreases tags.len(),
{
    if tags.len() == 0 {
        Seq::empty()
    } else if tags.len() == 1 {
        tags[0].text()
    } else {
        tags_text(tags.drop_last()) + ","@ + tags.last().text()
    }
}

/// The text of a tag set: the names of its tags in their order, with
/// commas between them, in square brackets.
pub open spec fn tagset_text(tags: Seq<Tag>) -> Seq<char> {
    "["@ + tags_text(tags) + "]"@
}

/// Appends the text of a tag set to a text.
pub fn write_tags(tags: &Tags, out: &mut String)
    ensures
        final(out)@ == old(out)@ + tagset_text(tags.ordered()),
{
    let ghost start = out@;
    let items = tags.items();
    out.append("[");
    let mut i: usize = 0;
    while i < items.len()
        invariant
            i <= items@.len(),
            out@ == start + "["@ + tags_text(items@.take(i as int)),
        decreases items@.len() - i,
    {
        if i > 0 {
            out.append(",");
        }
        items[i].write_to(out);
        proof {
            let head = items@.take(i as int);
            let next = items@.take(i + 1);
            assert(next.drop_last() =~= head);
            assert(next.last() == items@[i as int]);
            if i == 0 {
                assert(tags_text(head) =~= Seq::<char>::empty());
                assert(next.len() == 1);
                assert(out@ =~= start + "["@ + tags_text(next));
            } else {
                assert(out@ =~= start + "["@ + tags_text(next));
            }
        }
        i = i + 1;
    }
    out.append("]");
    proof {
        assert(items@.take(i as int) =~= items@);
        assert(out@ =~= start + tagset_text(tags.ordered()));
    }
}

/// The number of the work tag that a list of tags starts with.
pub open spec fn leading_work(tags: Seq<Tag>) -> Option<u8> {
    if tags.len() > 0 {
        match tags[0] {
            Tag::Work(n) => Some(n),
            _ => None,
        }
    } else {
        None
    }
}

/// The number next to `n`, upwards or downwards, within what a byte holds.
pub open spec fn stepped(n: u8, up: bool) -> u8 {
    if up {
        if n == 255 {
            255u8
        } else {
            (n + 1) as u8
        }
    } else {
        if n == 0 {
            0u8
        } else {
            (n - 1) as u8
        }
    }
}

impl<L: Layout> TagSet<L> {
    /// The number of the work tag that is the first tag of the set.
    pub fn first_work(&self) -> (res: Option<u8>)
        ensures
            res == leading_work(self.tags.ordered()),
    {
        match self.tags.first() {
            Some(Tag::Work(n)) => Some(n),
            _ => None,
        }
    }

    /// Moves a tag set that starts with a work tag on to the work tag with
    /// the next number, upwards or downwards; the numbers stop at 0 and at
    /// 255. Tells whether the tag set starts with a work tag.
    pub fn step_work(&mut self, up: bool) -> (res: bool)
        ensures
            res == leading_work(old(self).tags.ordered()) is Some,
            final(self).tags@ == (match leading_work(old(self).tags.ordered()) {
                Some(n) => old(self).tags@.remove(Tag::Work(n)).insert(Tag::Work(stepped(n, up))),
                None => old(self).tags@,
            }),
            final(self).layout == old(self).layout,
    {
        match self.first_work() {
            Some(n) => {
                let next = if up {
                    if n == 255 {
                        255
                    } else {
                        n + 1
                    }
                } else {
                    if n == 0 {
                        0
                    } else {
                        n - 1
                    }
                };
                self.tags.remove(&Tag::Work(n));
                self.tags.insert(Tag::Work(next));
                true
            },
            None => false,
        }
    }

    /// The tag set as shown to the user: the names of its tags in square
    /// brackets.
    pub fn to_string(&self) -> (res: String)
        ensures
            res@ == tagset_text(self.tags.ordered()),
    {
        let mut res = String::new();
        write_tags(&self.tags, &mut res);
        assert(res@ =~= tagset_text(self.tags.ordered()));
        res
    }

    /// Initialize a new tag set with a layout and a set of tags.
    pub fn new(tags: Tags, layout: L) -> (res: TagSet<L>)
        ensures
            res.tags == tags,
            res.layout == layout,
    {
        TagSet { tags, layout }
    }

    /// Toggle a tag on the tagset and return whether the tag was part of
    /// it before.
    pub fn toggle_tag(&mut self, tag: Tag) -> (was_set: bool)
        ensures
            was_set == old(self).tags@.contains(tag),
            final(self).tags@ == (if was_set {
                old(self).tags@.remove(tag)
            } else {
                old(self).tags@.insert(tag)
            }),
            final(self).tags.wf(),
            final(self).layout == old(self).layout,
    {
        if self.tags.contains(&tag) {
            self.tags.remove(&tag);
            true
        } else {
            self.tags.insert(tag);
            false
        }
    }

    /// Set a layout on the tagset.
    pub fn set_layout(&mut self, layout: L)
        ensures
            final(self).layout == layout,
            final(self).tags == old(self).tags,
    {
        self.layout = layout;
    }
}

/// The value of a tag stack.
pub struct TagStackView<L: Layout> {
    /// the known tagsets by their index
    pub tagsets: Map<u8, TagSet<L>>,
    /// the tags currently hidden
    pub hidden: Set<Tag>,
    /// the indices of the last few tagsets shown, the latest last
    pub history: Seq<u8>,
}

/// The most that a history holds.
pub const HISTORY_CAP: usize = 4;

/// The history after `index` was shown: at most the last three entries
/// from before, then `index`.
pub open spec fn pushed(history: Seq<u8>, index: u8) -> Seq<u8> {
    if history.len() >= 4 {
        history.subrange(history.len() - 3, history.len() as int).push(index)
    } else {
        history.push(index)
    }
}

/// A history without any occurrence of `index`, the rest in order.
pub open spec fn purged(history: Seq<u8>, index: u8) -> Seq<u8> {
    history.filter(|i: u8| i != index)
}

/// The map that holds the first `n` tagsets of a list, each under its
/// position, counted modulo 256.
pub open spec fn indexed<L: Layout>(tagsets: Seq<TagSet<L>>, n: nat) -> Map<u8, TagSet<L>>
    decreases n,
{
    if n == 0 {
        Map::empty()
    } else {
        indexed(tagsets, (n - 1) as nat).insert(((n - 1) % 256) as u8, tagsets[n - 1])
    }
}

impl<L: Layout> TagStackView<L> {
    /// The index of the tagset on show.
    pub open spec fn current_index(self) -> Option<u8> {
        if self.history.len() > 0 {
            Some(self.history.last())
        } else {
            None
        }
    }

    /// The tagset on show.
    pub open spec fn current(self) -> Option<TagSet<L>> {
        match self.current_index() {
            Some(i) => if self.tagsets.contains_key(i) {
                Some(self.tagsets[i])
            } else {
                None
            },
            None => None,
        }
    }

    /// The history is capped and names known tagsets only.
    pub open spec fn wf(self) -> bool {
        &&& self.history.len() <= HISTORY_CAP
        &&& forall|k: int| 0 <= k < self.history.len() ==> self.tagsets.contains_key(#[trigger] self.history[k])
    }
}

/// An organized set of known tagsets.
///
/// Allows for simple addressing of tagsets (and their layouts).
/// Tagsets are added and removed using API calls and are adressed using 8-bit
/// unsigned integers. Thus, 256 different tagsets can be managed at any point
/// in time. A small history of capped size is kept, determining the tagset
/// currently displayed by the window manager.
pub struct TagStack<L: Layout> {
    /// all tagsets known to man
    tagsets: HashMap<u8, TagSet<L>>,
    /// the set of tags currently hidden (due to overlap with other tag stacks)
    hidden: Tags,
    /// the last few tagsets shown
    history: Vec<u8>,
}

impl<L: Layout> View for TagStack<L> {
    type V = TagStackView<L>;

    closed spec fn view(&self) -> TagStackView<L> {
        TagStackView { tagsets: self.tagsets@, hidden: self.hidden@, history: self.history@ }
    }
}

impl<L: Layout> Default for TagStack<L> {
    fn default() -> (res: TagStack<L>)
        ensures
            res@.tagsets == Map::<u8, TagSet<L>>::empty(),
            res@.hidden == Set::<Tag>::empty(),
            res@.history == Seq::<u8>::empty(),
            res.wf(),
    {
        TagStack { tagsets: HashMap::new(), hidden: Tags::new(), history: Vec::new() }
    }
}

/// Dropping the entries `index` from a history that names known tagsets
/// leaves one that names none but the others.
proof fn lemma_purged(history: Seq<u8>, index: u8)
    ensures
        purged(history, index).len() <= history.len(),
        forall|k: int|
            0 <= k < purged(history, index).len() ==> (#[trigger] purged(history, index)[k])
                != index && history.contains(purged(history, index)[k]),
    decreases history.len(),
{
    reveal_with_fuel(Seq::filter, 2);
    if history.len() > 0 {
        let front = history.drop_last();
        lemma_purged(front, index);
        let p = purged(history, index);
        assert forall|k: int| 0 <= k < p.len() implies (#[trigger] p[k]) != index
            && history.contains(p[k]) by {
            if k < purged(front, index).len() {
                let x = purged(front, index)[k];
                assert(front.contains(x));
                let j = front.index_of(x);
                assert(history[j] == x);
            } else {
                assert(history[history.len() - 1] == p[k]);
            }
        }
    }
}

impl<L: Layout> TagStack<L> {
    /// The invariant of a tag stack.
    pub open spec fn wf(&self) -> bool {
        self@.wf()
    }

    /// Setup a tag stack from a vector of tag sets and the index of the
    /// initially viewed tagset in the vector.
    pub fn setup(&mut self, vec: Vec<TagSet<L>>, viewed: u8)
        ensures
            final(self)@.tagsets == indexed(vec@, vec@.len()),
            final(self)@.hidden == Set::<Tag>::empty(),
            final(self)@.history == (if indexed(vec@, vec@.len()).contains_key(viewed) {
                seq![viewed]
            } else {
                Seq::<u8>::empty()
            }),
            final(self).wf(),
    {
        self.hidden = Tags::new();
        self.history.clear();
        self.tagsets.clear();
        let ghost all = vec@;
        let total = vec.len();
        let mut vec = vec;
        let mut backwards: Vec<TagSet<L>> = Vec::new();
        while vec.len() > 0
            invariant
                all.len() == total,
                vec@.len() + backwards@.len() == all.len(),
                vec@ == all.take(vec@.len() as int),
                forall|k: int| 0 <= k < backwards@.len() ==> backwards@[k] == all[all.len() - 1 - k],
            decreases vec.len(),
        {
            let last = vec.pop().unwrap();
            backwards.push(last);
            assert(vec@ =~= all.take(vec@.len() as int));
        }
        let mut i: usize = 0;
        while backwards.len() > 0
            invariant
                i + backwards@.len() == all.len(),
                all.len() == total,
                forall|k: int| 0 <= k < backwards@.len() ==> backwards@[k] == all[all.len() - 1 - k],
                self.tagsets@ == indexed(all, i as nat),
                self.hidden@ == Set::<Tag>::empty(),
                self.history@ == Seq::<u8>::empty(),
            decreases backwards.len(),
        {
            let val = backwards.pop().unwrap();
            assert(val == all[i as int]);
            self.tagsets.insert((i % 256) as u8, val);
            i = i + 1;
        }
        if self.tagsets.contains_key(&viewed) {
            self.history.push(viewed);
            assert(self.history@ =~= seq![viewed]);
        }
    }

    /// Check whether the `TagStack` is in a default state.
    pub fn is_clean(&self) -> (res: bool)
        ensures
            res == (self@.tagsets.dom() == Set::<u8>::empty() && self@.hidden == Set::<Tag>::empty()
                && self@.history.len() == 0),
    {
        proof {
            if self@.tagsets.dom() == Set::<u8>::empty() {
                assert(self@.tagsets.dom().len() == 0);
            }
            if self@.tagsets.len() == 0 {
                assert(self@.tagsets.dom().finite());
                assert(self@.tagsets.dom() =~= Set::<u8>::empty()) by {
                    if exists|k: u8| self@.tagsets.dom().contains(k) {
                        let k = choose|k: u8| self@.tagsets.dom().contains(k);
                        vstd::set_lib::lemma_set_empty_equivalency_len(self@.tagsets.dom());
                    }
                }
            }
        }
        self.tagsets.len() == 0 && self.hidden.is_empty() && self.history.len() == 0
    }

    /// Get the current tag set's index.
    ///
    /// Returns `None` if the history stack is empty.
    pub fn current_index(&self) -> (res: Option<&u8>)
        ensures
            res == (match self@.current_index() {
                Some(i) => Some(&i),
                None => None,
            }),
    {
        let len = self.history.len();
        if len > 0 {
            Some(&self.history[len - 1])
        } else {
            None
        }
    }

    /// Get the current tag set by reference.
    ///
    /// Returns `None` if the history stack is empty.
    pub fn current(&self) -> (res: Option<&TagSet<L>>)
        ensures
            res == (match self@.current() {
                Some(tagset) => Some(&tagset),
                None => None,
            }),
    {
        let len = self.history.len();
        if len > 0 {
            self.tagsets.get(&self.history[len - 1])
        } else {
            None
        }
    }

    /// Get the current tag set by mutable reference.
    ///
    /// Returns `None` if the history stack is empty.
    pub fn current_mut(&mut self) -> (res: Option<&mut TagSet<L>>)
        ensures
            match res {
                Some(tagset) => old(self)@.current() == Some(*tagset) && final(self)@ == (
                TagStackView {
                    tagsets: old(self)@.tagsets.insert(
                        old(self)@.current_index()->0,
                        *final(tagset),
                    ),
                    ..old(self)@
                }),
                None => old(self)@.current() is None && final(self)@ == old(self)@,
            },
    {
        let len = self.history.len();
        if len > 0 {
            let index = self.history[len - 1];
            if self.tagsets.contains_key(&index) {
                match self.tagsets.entry(index) {
                    Entry::Occupied(entry) => Some(entry.into_mut()),
                    Entry::Vacant(_) => None,
                }
            } else {
                None
            }
        } else {
            None
        }
    }

    /// Set the currently viewed tagset by index. An index that names no
    /// tagset changes nothing.
    pub fn push(&mut self, new_index: u8)
        ensures
            final(self)@ == (if old(self)@.tagsets.contains_key(new_index) {
                TagStackView { history: pushed(old(self)@.history, new_index), ..old(self)@ }
            } else {
                old(self)@
            }),
            old(self)@.tagsets.contains_key(new_index) ==> final(self)@.history.len() <= HISTORY_CAP
                && final(self)@.current_index() == Some(new_index),
            old(self).wf() ==> final(self).wf(),
    {
        if self.tagsets.contains_key(&new_index) {
            let len = self.history.len();
            if len >= 4 {
                let mut kept: Vec<u8> = Vec::new();
                kept.push(self.history[len - 3]);
                kept.push(self.history[len - 2]);
                kept.push(self.history[len - 1]);
                assert(kept@ =~= self.history@.subrange(len - 3, len as int));
                self.history = kept;
            }
            self.history.push(new_index);
        }
    }

    /// Add a new tagset to the set, unless the index is taken; tells
    /// whether it was taken.
    pub fn add(&mut self, index: u8, value: TagSet<L>) -> (taken: bool)
        ensures
            taken == old(self)@.tagsets.contains_key(index),
            final(self)@ == (if taken {
                old(self)@
            } else {
                TagStackView { tagsets: old(self)@.tagsets.insert(index, value), ..old(self)@ }
            }),
            old(self).wf() ==> final(self).wf(),
    {
        if self.tagsets.contains_key(&index) {
            true
        } else {
            self.tagsets.insert(index, value);
            false
        }
    }

    /// Remove a tagset from the set, and its index from the history;
    /// tells whether there was such a tagset.
    pub fn remove(&mut self, index: u8) -> (removed: bool)
        ensures
            removed == old(self)@.tagsets.contains_key(index),
            final(self)@ == (if removed {
                TagStackView {
                    tagsets: old(self)@.tagsets.remove(index),
                    history: purged(old(self)@.history, index),
                    ..old(self)@
                }
            } else {
                old(self)@
            }),
            old(self).wf() ==> final(self).wf(),
    {
        if self.tagsets.remove(&index).is_some() {
            let ghost before = self.history@;
            let mut kept: Vec<u8> = Vec::new();
            let mut i: usize = 0;
            while i < self.history.len()
                invariant
                    i <= self.history@.len(),
                    self.history@ == before,
                    kept@ == purged(before.take(i as int), index),
                decreases self.history@.len() - i,
            {
                let entry = self.history[i];
                proof {
                    reveal_with_fuel(Seq::filter, 2);
                    assert(before.take(i + 1).drop_last() =~= before.take(i as int));
                }
                if entry != index {
                    kept.push(entry);
                }
                i = i + 1;
            }
            proof {
                assert(before.take(i as int) =~= before);
                lemma_purged(before, index);
                if old(self).wf() {
                    assert forall|k: int| 0 <= k < kept@.len() implies self.tagsets@.contains_key(
                        #[trigger] kept@[k],
                    ) by {
                        let x = purged(before, index)[k];
                        assert(before.contains(x));
                        let j = before.index_of(x);
                        assert(before[j] == x);
                    }
                }
            }
            self.history = kept;
            assert(self@.tagsets =~= old(self)@.tagsets.remove(index));
            true
        } else {
            assert(self@.tagsets =~= old(self)@.tagsets);
            false
        }
    }

    /// Switch to previously shown tagset, using the history stack; tells
    /// whether there was an entry to drop.
    pub fn view_prev(&mut self) -> (popped: bool)
        ensures
            popped == (old(self)@.history.len() > 0),
            final(self)@ == (if popped {
                TagStackView { history: old(self)@.history.drop_last(), ..old(self)@ }
            } else {
                old(self)@
            }),
            old(self).wf() ==> final(self).wf(),
    {
        self.history.pop().is_some()
    }

    /// Ensure a set of tags is set as hidden when present in the current tagset.
    ///
    /// If there is no current tagset, ensure the set of hidden tags to be empty.
    pub fn set_hidden(&mut self, hide: &Tags)
        ensures
            final(self)@ == (TagStackView {
                hidden: match old(self)@.current() {
                    Some(tagset) => tagset.tags@.intersect(hide@),
                    None => Set::<Tag>::empty(),
                },
                ..old(self)@
            }),
    {
        let hidden = match self.current() {
            Some(tagset) => tagset.tags.intersection(hide),
            None => Tags::new(),
        };
        self.hidden = hidden;
    }

    /// The indices of the last few tagsets shown, the latest last.
    pub fn history(&self) -> (res: Vec<u8>)
        ensures
            res@ == self@.history,
    {
        self.history.clone()
    }

    /// Get an immutable reference to the set of currently hidden tags on this tag stack.
    pub fn get_hidden(&self) -> (res: &Tags)
        ensures
            res@ == self@.hidden,
    {
        &self.hidden
    }
}

/// However a history came about, showing a tagset that is known leaves
/// a history of four entries at most, the last of which is that tagset.
pub proof fn lemma_history_cap(history: Seq<u8>, index: u8)
    ensures
        pushed(history, index).len() <= HISTORY_CAP,
        pushed(history, index).last() == index,
        history.len() < HISTORY_CAP ==> pushed(history, index) == history.push(index),
{
}

} // verus!
