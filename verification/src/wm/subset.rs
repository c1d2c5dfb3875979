//! Per-view ordering of clients: a tree of nested splits stored in an arena.

use vstd::prelude::*;

use crate::wm::layout::SplitDirection;

verus! {

/// An X window id.
pub type Window = u32;

/// What a structural probe of a subset tree can report.
#[derive(Debug, PartialEq, Eq, Structural)]
pub enum SubsetError {
    /// The node is a leaf where an inner node was needed.
    WrongKindOfNode,
    /// The inner node does not list the given child.
    WrongParent,
    /// The node has no parent.
    Orphan,
}

/// The result of a structural probe.
pub type SubsetResult<A> = Result<A, SubsetError>;

/// Where a new leaf goes relative to the reference node.
#[derive(Clone, Copy, Debug, PartialEq, Eq, Structural)]
pub enum InsertBias {
    /// Wrap the reference in a new split, new leaf first.
    BelowLeft,
    /// Wrap the reference in a new split, new leaf last.
    BelowRight,
    /// Sibling immediately before the reference.
    NextToLeft,
    /// Sibling immediately after the reference.
    NextToRight,
}

/// A node of a subset tree.
#[derive(Debug, PartialEq, Eq)]
pub enum SubsetEntry {
    /// An inner node: parent slot, direction, and the child slots in order.
    Split(Option<usize>, SplitDirection, Vec<usize>),
    /// A leaf: parent slot and the window it stands for.
    Client(Option<usize>, Window),
}

/// The mathematical value of a node.
pub enum EntryView {
    Split { parent: Option<usize>, direction: SplitDirection, children: Seq<usize> },
    Client { parent: Option<usize>, window: Window },
}

impl EntryView {
    /// The parent slot, for either kind of node.
    pub open spec fn parent(self) -> Option<usize> {
        match self {
            EntryView::Split { parent, .. } => parent,
            EntryView::Client { parent, .. } => parent,
        }
    }

    /// The child slots of an inner node; a leaf has none.
    pub open spec fn children(self) -> Seq<usize> {
        match self {
            EntryView::Split { children, .. } => children,
            EntryView::Client { .. } => Seq::empty(),
        }
    }

    /// The same node under another parent.
    pub open spec fn with_parent(self, new_parent: Option<usize>) -> EntryView {
        match self {
            EntryView::Split { direction, children, .. } => EntryView::Split {
                parent: new_parent,
                direction,
                children,
            },
            EntryView::Client { window, .. } => EntryView::Client { parent: new_parent, window },
        }
    }

    /// The same node with another child list; a leaf is left as it is.
    pub open spec fn with_children(self, new_children: Seq<usize>) -> EntryView {
        match self {
            EntryView::Split { parent, direction, .. } => EntryView::Split {
                parent,
                direction,
                children: new_children,
            },
            EntryView::Client { .. } => self,
        }
    }
}

impl View for SubsetEntry {
    type V = EntryView;

    open spec fn view(&self) -> EntryView {
        match *self {
            SubsetEntry::Split(parent, direction, children) => EntryView::Split {
                parent,
                direction,
                children: children@,
            },
            SubsetEntry::Client(parent, window) => EntryView::Client { parent, window },
        }
    }
}

/// `pos` is the first position at which `x` occurs in `s`.
pub open spec fn first_at(s: Seq<usize>, x: usize, pos: int) -> bool {
    &&& 0 <= pos < s.len()
    &&& s[pos] == x
    &&& forall|k: int| 0 <= k < pos ==> s[k] != x
}

/// `s` without any occurrence of `x`, the rest in order.
pub open spec fn without(s: Seq<usize>, x: usize) -> Seq<usize> {
    s.filter(|c: usize| c != x)
}

/// Appending one item to a sequence appends it to the filtered sequence
/// too, unless it is the item left out.
pub proof fn lemma_without_push(s: Seq<usize>, c: usize, x: usize)
    ensures
        without(s.push(c), x) == if c != x {
            without(s, x).push(c)
        } else {
            without(s, x)
        },
{
    reveal_with_fuel(Seq::filter, 2);
    assert(s.push(c).drop_last() =~= s);
}

/// Removes every occurrence of `x` from `v`, keeping the order of the rest.
pub fn remove_value(v: &mut Vec<usize>, x: usize)
    ensures
        final(v)@ == without(old(v)@, x),
{
    let ghost before = v@;
    let mut out: Vec<usize> = Vec::new();
    let mut i: usize = 0;
    while i < v.len()
        invariant
            v@ == before,
            i <= v.len(),
            out@ == without(before.take(i as int), x),
        decreases v.len() - i,
    {
        let c = v[i];
        proof {
            assert(before.take(i + 1) =~= before.take(i as int).push(c));
            lemma_without_push(before.take(i as int), c, x);
        }
        if c != x {
            out.push(c);
        }
        i = i + 1;
    }
    proof {
        assert(before.take(i as int) =~= before);
    }
    *v = out;
}

impl SubsetEntry {
    /// The parent slot of the node.
    #[inline(always)]
    pub fn get_parent(&self) -> (parent: Option<usize>)
        ensures
            parent == self@.parent(),
    {
        match *self {
            SubsetEntry::Split(parent, ..) => parent,
            SubsetEntry::Client(parent, ..) => parent,
        }
    }

    /// Puts the node under another parent.
    #[inline(always)]
    pub fn set_parent(&mut self, new_parent: Option<usize>)
        ensures
            final(self)@ == old(self)@.with_parent(new_parent),
    {
        match self {
            SubsetEntry::Split(parent, ..) => {
                *parent = new_parent;
            },
            SubsetEntry::Client(parent, ..) => {
                *parent = new_parent;
            },
        }
    }

    /// The child list of an inner node; a leaf is the wrong kind of node.
    #[inline(always)]
    pub fn get_children(&self) -> (res: SubsetResult<&Vec<usize>>)
        ensures
            match res {
                Ok(children) => self@ is Split && children@ == self@.children(),
                Err(e) => self@ is Client && e == SubsetError::WrongKindOfNode,
            },
    {
        match self {
            SubsetEntry::Split(_, _, children) => Ok(children),
            _ => Err(SubsetError::WrongKindOfNode),
        }
    }

    /// The child list of an inner node, to be changed in place.
    #[inline(always)]
    pub fn get_children_mut(&mut self) -> (res: SubsetResult<&mut Vec<usize>>)
        ensures
            match res {
                Ok(children) => old(self)@ is Split && children@ == old(self)@.children()
                    && final(self)@ == old(self)@.with_children(final(children)@),
                Err(e) => old(self)@ is Client && e == SubsetError::WrongKindOfNode && *final(self)
                    == *old(self),
            },
    {
        match self {
            SubsetEntry::Split(_, _, children) => Ok(children),
            _ => Err(SubsetError::WrongKindOfNode),
        }
    }

    /// The position of `child` in the node's child list.
    #[inline(always)]
    pub fn find_child(&self, child: usize) -> (res: SubsetResult<usize>)
        ensures
            match res {
                Ok(pos) => self@ is Split && first_at(self@.children(), child, pos as int) && pos
                    < usize::MAX,
                Err(e) => if self@ is Client {
                    e == SubsetError::WrongKindOfNode
                } else {
                    e == SubsetError::WrongParent && !self@.children().contains(child)
                },
            },
    {
        let children = match self.get_children() {
            Ok(children) => children,
            Err(e) => {
                return Err(e);
            },
        };
        let mut pos: usize = 0;
        while pos < children.len()
            invariant
                pos <= children.len(),
                self@ is Split,
                children@ == self@.children(),
                forall|k: int| 0 <= k < pos ==> children@[k] != child,
            decreases children.len() - pos,
        {
            if children[pos] == child {
                return Ok(pos);
            }
            pos = pos + 1;
        }
        Err(SubsetError::WrongParent)
    }

    /// Drops `child` from the node's child list.
    #[inline(always)]
    pub fn remove_child(&mut self, child: usize) -> (res: SubsetResult<()>)
        ensures
            match res {
                Ok(_) => old(self)@ is Split && final(self)@ == old(self)@.with_children(
                    without(old(self)@.children(), child),
                ),
                Err(e) => old(self)@ is Client && e == SubsetError::WrongKindOfNode && *final(self)
                    == *old(self),
            },
    {
        match self.get_children_mut() {
            Ok(children) => {
                remove_value(children, child);
                Ok(())
            },
            Err(e) => Err(e),
        }
    }
}

} // verus!
