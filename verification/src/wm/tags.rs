//! Sets of tags, kept in the order of the tags.

use vstd::prelude::*;

use crate::wm::config::Tag;

verus! {

/// The tags of a list are in strictly rising order.
pub open spec fn rising(items: Seq<Tag>) -> bool {
    forall|i: int, j: int| 0 <= i < j < items.len() ==> items[i].rank() < items[j].rank()
}

/// A set of tags.
#[derive(Debug)]
pub struct Tags {
    items: Vec<Tag>,
}

impl View for Tags {
    type V = Set<Tag>;

    closed spec fn view(&self) -> Set<Tag> {
        self.items@.to_set()
    }
}

impl Clone for Tags {
    fn clone(&self) -> (res: Tags)
        ensures
            res@ == self@,
            res.ordered() == self.ordered(),
            res.wf(),
    {
        proof {
            use_type_invariant(self);
        }
        let mut items: Vec<Tag> = Vec::new();
        let mut i: usize = 0;
        while i < self.items.len()
            invariant
                i <= self.items@.len(),
                items@ == self.items@.take(i as int),
            decreases self.items@.len() - i,
        {
            items.push(self.items[i]);
            assert(self.items@.take(i + 1) =~= self.items@.take(i as int).push(
                self.items@[i as int],
            ));
            i = i + 1;
        }
        assert(self.items@.take(i as int) =~= self.items@);
        Tags { items }
    }
}

/// In a rising list a tag has one position at most.
proof fn lemma_rising_unique(items: Seq<Tag>, i: int, j: int)
    requires
        rising(items),
        0 <= i < items.len(),
        0 <= j < items.len(),
        items[i] == items[j],
    ensures
        i == j,
{
    if i < j {
        assert(items[i].rank() < items[j].rank());
    } else if j < i {
        assert(items[j].rank() < items[i].rank());
    }
}

/// Rising lists of the same tags are the same list.
proof fn lemma_rising_canonical(a: Seq<Tag>, b: Seq<Tag>)
    requires
        rising(a),
        rising(b),
        a.to_set() == b.to_set(),
    ensures
        a == b,
    decreases a.len(),
{
    if a.len() == 0 {
        if b.len() > 0 {
            assert(b.to_set().contains(b[0]));
            assert(a.contains(b[0]));
        }
        assert(a =~= b);
    } else {
        let x = a[a.len() - 1];
        assert(a.to_set().contains(x));
        assert(b.contains(x));
        if b.len() == 0 {
            assert(false);
        }
        let y = b[b.len() - 1];
        assert(b.to_set().contains(y));
        assert(a.contains(y));
        let ia = a.index_of(y);
        let ib = b.index_of(x);
        assert(a[ia] == y && b[ib] == x);
        if ia < a.len() - 1 {
            assert(a[ia].rank() < x.rank());
        }
        if ib < b.len() - 1 {
            assert(b[ib].rank() < y.rank());
        }
        Tag::lemma_rank_injective(x, y);
        let a0 = a.drop_last();
        let b0 = b.drop_last();
        assert forall|t: Tag| a0.to_set().contains(t) <==> b0.to_set().contains(t) by {
            if a0.contains(t) {
                let k = a0.index_of(t);
                assert(a[k] == t);
                assert(a[k].rank() < x.rank());
                assert(a.contains(t));
                assert(b.to_set().contains(t));
                let m = b.index_of(t);
                assert(b[m] == t);
                assert(m != b.len() - 1);
                assert(b0[m] == t);
            }
            if b0.contains(t) {
                let k = b0.index_of(t);
                assert(b[k] == t);
                assert(b[k].rank() < y.rank());
                assert(b.contains(t));
                assert(a.to_set().contains(t));
                let m = a.index_of(t);
                assert(a[m] == t);
                assert(m != a.len() - 1);
                assert(a0[m] == t);
            }
        }
        assert(a0.to_set() =~= b0.to_set());
        lemma_rising_canonical(a0, b0);
        assert(a =~= a0.push(x));
        assert(b =~= b0.push(y));
    }
}

/// Putting a tag where the order wants it keeps a list rising and adds
/// just that tag to what the list holds.
proof fn lemma_insert_rising(before: Seq<Tag>, pos: int, tag: Tag)
    requires
        rising(before),
        0 <= pos <= before.len(),
        forall|k: int| 0 <= k < pos ==> before[k].rank() < tag.rank(),
        forall|k: int| pos <= k < before.len() ==> before[k].rank() > tag.rank(),
    ensures
        rising(before.insert(pos, tag)),
        before.insert(pos, tag).to_set() == before.to_set().insert(tag),
        !before.contains(tag),
{
    let after = before.insert(pos, tag);
    before.insert_ensures(pos, tag);
    assert forall|k: int| 0 <= k < after.len() implies #[trigger] after[k] == (if k < pos {
        before[k]
    } else if k == pos {
        tag
    } else {
        before[k - 1]
    }) by {}
    assert forall|i: int, j: int| 0 <= i < j < after.len() implies after[i].rank()
        < after[j].rank() by {
        assert(after[i] == (if i < pos {
            before[i]
        } else if i == pos {
            tag
        } else {
            before[i - 1]
        }));
        assert(after[j] == (if j < pos {
            before[j]
        } else if j == pos {
            tag
        } else {
            before[j - 1]
        }));
    }
    if before.contains(tag) {
        let k = before.index_of(tag);
        assert(before[k] == tag);
    }
    assert forall|t: Tag| after.contains(t) <==> before.contains(t) || t == tag by {
        if after.contains(t) {
            let k = after.index_of(t);
            assert(after[k] == t);
            if k < pos {
                assert(before[k] == t);
            } else if k > pos {
                assert(before[k - 1] == t);
            }
        }
        if before.contains(t) {
            let k = before.index_of(t);
            assert(before[k] == t);
            if k < pos {
                assert(after[k] == t);
            } else {
                assert(after[k + 1] == t);
            }
        }
        if t == tag {
            assert(after[pos] == t);
        }
    }
    assert(after.to_set() =~= before.to_set().insert(tag));
}

impl Tags {
    /// The invariant of a tag set: its tags are held in rising order.
    pub closed spec fn wf(&self) -> bool {
        rising(self.items@)
    }

    /// Every tag set that code can hold has its tags in rising order.
    #[verifier::type_invariant]
    spec fn rising_always(&self) -> bool {
        rising(self.items@)
    }

    /// Every tag set that code can hold meets the invariant.
    pub fn assured(&self)
        ensures
            self.wf(),
    {
        proof {
            use_type_invariant(self);
        }
    }

    /// The tags in their order.
    pub closed spec fn ordered(&self) -> Seq<Tag> {
        self.items@
    }

    /// The ordered list holds exactly the tags of the set, in rising order.
    pub proof fn lemma_ordered(&self)
        requires
            self.wf(),
        ensures
            rising(self.ordered()),
            self.ordered().to_set() == self@,
            self@.finite(),
            self@.len() == self.ordered().len(),
    {
        let items = self.items@;
        assert(items.no_duplicates()) by {
            assert forall|i: int, j: int|
                0 <= i < items.len() && 0 <= j < items.len() && i != j implies items[i]
                != items[j] by {
                if items[i] == items[j] {
                    lemma_rising_unique(items, i, j);
                }
            }
        }
        items.unique_seq_to_set();
    }

    /// A tag set is a finite set.
    pub proof fn lemma_finite(&self)
        ensures
            self@.finite(),
    {
        vstd::seq_lib::seq_to_set_is_finite(self.items@);
    }

    /// Two tag sets hold the same tags exactly when their ordered lists
    /// are the same.
    pub proof fn lemma_same_set(&self, other: &Tags)
        requires
            self.wf(),
            other.wf(),
        ensures
            (self@ == other@) <==> (self.ordered() == other.ordered()),
    {
        if self@ == other@ {
            lemma_rising_canonical(self.items@, other.items@);
        }
    }

    /// The empty set.
    pub fn new() -> (tags: Tags)
        ensures
            tags.wf(),
            tags@ == Set::<Tag>::empty(),
    {
        let tags = Tags { items: Vec::new() };
        assert(tags@ =~= Set::<Tag>::empty());
        tags
    }

    /// The set of the tags in a slice.
    pub fn from_slice(slice: &[Tag]) -> (tags: Tags)
        ensures
            tags.wf(),
            tags@ == slice@.to_set(),
    {
        let mut tags = Tags::new();
        let mut i: usize = 0;
        while i < slice.len()
            invariant
                i <= slice.len(),
                tags.wf(),
                tags@ == slice@.take(i as int).to_set(),
            decreases slice.len() - i,
        {
            tags.insert(slice[i]);
            proof {
                let head = slice@.take(i as int);
                assert(slice@.take(i + 1) =~= head.push(slice@[i as int]));
                assert(head.push(slice@[i as int]).to_set() =~= head.to_set().insert(
                    slice@[i as int],
                )) by {
                    assert forall|t: Tag|
                        head.push(slice@[i as int]).contains(t) <==> head.contains(t) || t
                            == slice@[i as int] by {
                        if head.contains(t) {
                            let k = head.index_of(t);
                            assert(head.push(slice@[i as int])[k] == t);
                        }
                        if t == slice@[i as int] {
                            assert(head.push(slice@[i as int])[head.len() as int] == t);
                        }
                    }
                }
            }
            i = i + 1;
        }
        proof {
            assert(slice@.take(i as int) =~= slice@);
        }
        tags
    }

    /// The number of tags in the set.
    pub fn len(&self) -> (n: usize)
        ensures
            n == self@.len(),
    {
        proof {
            use_type_invariant(self);
        }
        proof {
            self.lemma_ordered();
        }
        self.items.len()
    }

    /// Whether the set holds no tag.
    pub fn is_empty(&self) -> (res: bool)
        ensures
            res == (self@ == Set::<Tag>::empty()),
    {
        proof {
            use_type_invariant(self);
        }
        proof {
            self.lemma_ordered();
            if self.items@.len() > 0 {
                assert(self.items@.contains(self.items@[0]));
                assert(self@.contains(self.items@[0]));
            } else {
                assert(self@ =~= Set::<Tag>::empty());
            }
        }
        self.items.len() == 0
    }

    /// The first tag of the set in the order of the tags.
    pub fn first(&self) -> (tag: Option<Tag>)
        ensures
            tag == (if self.ordered().len() > 0 {
                Some(self.ordered()[0])
            } else {
                None
            }),
    {
        if self.items.len() > 0 {
            Some(self.items[0])
        } else {
            None
        }
    }

    /// The tags of the set in rising order.
    pub fn items(&self) -> (items: &Vec<Tag>)
        ensures
            items@ == self.ordered(),
    {
        &self.items
    }

    /// The position at which `tag` stands, or would have to stand.
    fn position(&self, tag: Tag) -> (pos: usize)
        ensures
            pos <= self.items@.len(),
            forall|k: int| 0 <= k < pos ==> self.items@[k].rank() < tag.rank(),
            forall|k: int| pos <= k < self.items@.len() ==> self.items@[k].rank() >= tag.rank(),
    {
        proof {
            use_type_invariant(self);
        }
        let key = tag.order();
        let mut pos: usize = 0;
        while pos < self.items.len() && self.items[pos].order() < key
            invariant
                pos <= self.items@.len(),
                key == tag.rank(),
                self.wf(),
                forall|k: int| 0 <= k < pos ==> self.items@[k].rank() < tag.rank(),
            decreases self.items@.len() - pos,
        {
            pos = pos + 1;
        }
        proof {
            if pos < self.items@.len() {
                assert forall|k: int| pos <= k < self.items@.len() implies self.items@[k].rank()
                    >= tag.rank() by {
                    if k > pos {
                        assert(self.items@[pos as int].rank() < self.items@[k].rank());
                    }
                }
            }
        }
        pos
    }

    /// Whether `tag` is in the set.
    pub fn contains(&self, tag: &Tag) -> (res: bool)
        ensures
            res == self@.contains(*tag),
    {
        proof {
            use_type_invariant(self);
        }
        let pos = self.position(*tag);
        let res = pos < self.items.len() && self.items[pos].order() == tag.order();
        proof {
            if res {
                Tag::lemma_rank_injective(self.items@[pos as int], *tag);
                assert(self.items@.contains(*tag));
            } else if self.items@.contains(*tag) {
                let k = self.items@.index_of(*tag);
                assert(self.items@[k] == *tag);
            }
        }
        res
    }

    /// Puts `tag` into the set and tells whether it was new to it.
    pub fn insert(&mut self, tag: Tag) -> (added: bool)
        ensures
            final(self).wf(),
            final(self)@ == old(self)@.insert(tag),
            added == !old(self)@.contains(tag),
    {
        proof {
            use_type_invariant(&*self);
        }
        let pos = self.position(tag);
        let ghost before = self.items@;
        if pos < self.items.len() && self.items[pos].order() == tag.order() {
            proof {
                Tag::lemma_rank_injective(before[pos as int], tag);
                assert(before.contains(tag));
                assert(self@ =~= old(self)@.insert(tag));
            }
            false
        } else {
            proof {
                lemma_insert_rising(before, pos as int, tag);
            }
            let mut items: Vec<Tag> = Vec::new();
            std::mem::swap(&mut self.items, &mut items);
            items.insert(pos, tag);
            std::mem::swap(&mut self.items, &mut items);
            true
        }
    }

    /// Takes `tag` out of the set and tells whether it was in it.
    pub fn remove(&mut self, tag: &Tag) -> (removed: bool)
        ensures
            final(self).wf(),
            final(self)@ == old(self)@.remove(*tag),
            removed == old(self)@.contains(*tag),
    {
        proof {
            use_type_invariant(&*self);
        }
        let pos = self.position(*tag);
        let ghost before = self.items@;
        if pos < self.items.len() && self.items[pos].order() == tag.order() {
            proof {
                let after = before.remove(pos as int);
                Tag::lemma_rank_injective(before[pos as int], *tag);
                assert(before.contains(*tag));
                before.remove_ensures(pos as int);
                assert forall|k: int| 0 <= k < after.len() implies #[trigger] after[k]
                    == before[if k < pos {
                    k
                } else {
                    k + 1
                }] by {}
                assert forall|i: int, j: int| 0 <= i < j < after.len() implies after[i].rank()
                    < after[j].rank() by {
                    let i0 = if i < pos {
                        i
                    } else {
                        i + 1
                    };
                    let j0 = if j < pos {
                        j
                    } else {
                        j + 1
                    };
                    assert(after[i] == before[i0] && after[j] == before[j0]);
                }
                assert forall|t: Tag| after.contains(t) <==> before.contains(t) && t != *tag by {
                    if after.contains(t) {
                        let k = after.index_of(t);
                        assert(after[k] == t);
                        let k0 = if k < pos {
                            k
                        } else {
                            k + 1
                        };
                        assert(before[k0] == t);
                        if t == *tag {
                            lemma_rising_unique(before, k0, pos as int);
                        }
                    }
                    if before.contains(t) && t != *tag {
                        let k = before.index_of(t);
                        assert(before[k] == t);
                        if k < pos {
                            assert(after[k] == t);
                        } else {
                            assert(after[k - 1] == t);
                        }
                    }
                }
                assert(after.to_set() =~= before.to_set().remove(*tag));
            }
            let mut items: Vec<Tag> = Vec::new();
            std::mem::swap(&mut self.items, &mut items);
            let _ = items.remove(pos);
            std::mem::swap(&mut self.items, &mut items);
            true
        } else {
            proof {
                if before.contains(*tag) {
                    let k = before.index_of(*tag);
                    assert(before[k] == *tag);
                }
                assert(self@ =~= old(self)@.remove(*tag));
            }
            false
        }
    }

    /// Whether the two sets have a tag in common.
    pub fn intersects(&self, other: &Tags) -> (res: bool)
        ensures
            res == (exists|t: Tag| self@.contains(t) && other@.contains(t)),
    {
        proof {
            use_type_invariant(self);
            use_type_invariant(other);
        }
        let mut i: usize = 0;
        while i < self.items.len()
            invariant
                i <= self.items@.len(),
                self.wf(),
                other.wf(),
                forall|k: int| 0 <= k < i ==> !other@.contains(self.items@[k]),
            decreases self.items@.len() - i,
        {
            if other.contains(&self.items[i]) {
                proof {
                    assert(self.items@.contains(self.items@[i as int]));
                    assert(self@.contains(self.items@[i as int]));
                }
                return true;
            }
            i = i + 1;
        }
        proof {
            assert forall|t: Tag| !(self@.contains(t) && other@.contains(t)) by {
                if self@.contains(t) {
                    let k = self.items@.index_of(t);
                    assert(self.items@[k] == t);
                }
            }
        }
        false
    }

    /// The tags that are in both sets.
    pub fn intersection(&self, other: &Tags) -> (both: Tags)
        ensures
            both.wf(),
            both@ == self@.intersect(other@),
    {
        proof {
            use_type_invariant(self);
            use_type_invariant(other);
        }
        let mut both = Tags::new();
        let mut i: usize = 0;
        while i < self.items.len()
            invariant
                i <= self.items@.len(),
                self.wf(),
                other.wf(),
                both.wf(),
                both@ == self.items@.take(i as int).to_set().intersect(other@),
            decreases self.items@.len() - i,
        {
            let tag = self.items[i];
            proof {
                let head = self.items@.take(i as int);
                assert(self.items@.take(i + 1) =~= head.push(tag));
                assert forall|t: Tag| head.push(tag).contains(t) <==> head.contains(t) || t
                    == tag by {
                    if head.contains(t) {
                        let k = head.index_of(t);
                        assert(head.push(tag)[k] == t);
                    }
                    if t == tag {
                        assert(head.push(tag)[head.len() as int] == t);
                    }
                }
            }
            if other.contains(&tag) {
                both.insert(tag);
            }
            proof {
                assert(both@ =~= self.items@.take(i + 1).to_set().intersect(other@));
            }
            i = i + 1;
        }
        proof {
            assert(self.items@.take(i as int) =~= self.items@);
        }
        both
    }

    /// Whether the two sets hold the same tags.
    pub fn same(&self, other: &Tags) -> (res: bool)
        ensures
            res == (self@ == other@),
    {
        proof {
            use_type_invariant(self);
            use_type_invariant(other);
        }
        proof {
            self.lemma_same_set(other);
        }
        if self.items.len() != other.items.len() {
            return false;
        }
        let mut i: usize = 0;
        while i < self.items.len()
            invariant
                i <= self.items@.len(),
                self.items@.len() == other.items@.len(),
                (self@ == other@) <==> (self.items@ == other.items@),
                forall|k: int| 0 <= k < i ==> self.items@[k] == other.items@[k],
            decreases self.items@.len() - i,
        {
            if self.items[i].order() != other.items[i].order() {
                assert(self.items@[i as int] != other.items@[i as int]);
                return false;
            }
            proof {
                Tag::lemma_rank_injective(self.items@[i as int], other.items@[i as int]);
            }
            i = i + 1;
        }
        assert(self.items@ =~= other.items@);
        true
    }
}

} // verus!
