//! The subset tree itself: nodes in an arena, linked by slot numbers.

use vstd::prelude::*;

use crate::wm::arena::{
    arena_entries, arena_get, arena_get_mut, arena_insert, arena_new, arena_remove, arena_slots,
};
use crate::wm::layout::SplitDirection;
use crate::wm::subset::{
    first_at, without, EntryView, InsertBias, SubsetEntry, SubsetError, SubsetResult, Window,
};
use crate::wm::tree_model::{
    add_child_nodes, beside, collapsed_root, collapsed_under, edge, edge_leaf, leaves_below,
    lemma_exchanged_wf, lemma_leaf_of, lemma_lone_leaf, lemma_marks_moved, lemma_reordered_wf,
    nodes_below,
    reordered, transposed,
    lemma_add_beside_wf, lemma_add_first_wf, lemma_child_position, lemma_collapsed_root_wf,
    lemma_collapsed_under_wf, lemma_pruned_wf, lemma_without_unique, lemma_wrapped_root_wf,
    lemma_wrapped_under_wf, pair_of, pruned, ranked, wrapped_root, wrapped_under, TreeView,
};
use vec_arena::Arena;

verus! {

/// The order of the clients of one view: a tree whose leaves are clients
/// and whose inner nodes are splits.
pub struct SubsetTree {
    arena: Arena<SubsetEntry>,
    root: Option<usize>,
    focused: Option<usize>,
    selected: Option<usize>,
}

/// The nodes held by an arena, each by its value.
pub open spec fn node_views(entries: Map<usize, SubsetEntry>) -> Map<usize, EntryView> {
    entries.map_values(|e: SubsetEntry| e@)
}

impl View for SubsetTree {
    type V = TreeView;

    closed spec fn view(&self) -> TreeView {
        TreeView {
            nodes: node_views(arena_entries(self.arena)),
            root: self.root,
            focused: self.focused,
            selected: self.selected,
        }
    }
}

impl SubsetTree {
    /// The invariant that every public operation keeps.
    pub open spec fn wf(&self) -> bool {
        self@.wf()
    }

    /// An empty tree.
    pub fn new() -> (tree: SubsetTree)
        ensures
            tree.wf(),
            tree@.nodes.dom() == Set::<usize>::empty(),
            tree@.root is None,
            tree@.focused is None,
            tree@.selected is None,
    {
        let tree = SubsetTree { arena: arena_new(), root: None, focused: None, selected: None };
        proof {
            assert(tree@.nodes.dom() =~= Set::<usize>::empty());
            assert(ranked(tree@.nodes, Map::<usize, nat>::empty()));
        }
        tree
    }

    /// Puts a leaf for `client`, without a parent, into a vacant slot.
    fn add_client_node(&mut self, client: Window) -> (node: usize)
        ensures
            !old(self)@.live(node),
            final(self)@ == old(self)@.with_nodes(
                old(self)@.nodes.insert(node, EntryView::Client { parent: None, window: client }),
            ),
    {
        let node = arena_insert(&mut self.arena, SubsetEntry::Client(None, client));
        proof {
            assert(self@.nodes =~= old(self)@.nodes.insert(
                node,
                EntryView::Client { parent: None, window: client },
            ));
        }
        node
    }

    /// Puts a split without parent and children into a vacant slot.
    fn add_inner_node(&mut self, split: SplitDirection) -> (node: usize)
        ensures
            !old(self)@.live(node),
            final(self)@ == old(self)@.with_nodes(
                old(self)@.nodes.insert(
                    node,
                    EntryView::Split { parent: None, direction: split, children: Seq::empty() },
                ),
            ),
    {
        let node = arena_insert(&mut self.arena, SubsetEntry::Split(None, split, Vec::new()));
        proof {
            assert(self@.nodes =~= old(self)@.nodes.insert(
                node,
                EntryView::Split { parent: None, direction: split, children: Seq::empty() },
            ));
        }
        node
    }

    /// The parent of `node` and the position of `node` in the parent's list.
    fn get_parent(&self, node: usize) -> (res: SubsetResult<(usize, usize)>)
        requires
            self@.live(node),
            self@.nodes[node].parent() matches Some(p) ==> self@.live(p),
        ensures
            match res {
                Ok((parent, index)) => self@.nodes[node].parent() == Some(parent) && index
                    < usize::MAX && self@.nodes[parent] is Split && first_at(
                    self@.nodes[parent].children(),
                    node,
                    index as int,
                ),
                Err(e) => match self@.nodes[node].parent() {
                    None => e == SubsetError::Orphan,
                    Some(p) => if self@.nodes[p] is Client {
                        e == SubsetError::WrongKindOfNode
                    } else {
                        e == SubsetError::WrongParent && !self@.nodes[p].children().contains(node)
                    },
                },
            },
    {
        let parent = match arena_get(&self.arena, node) {
            Some(entry) => entry.get_parent(),
            None => None,
        };
        if let Some(parent) = parent {
            match arena_get(&self.arena, parent) {
                Some(entry) => match entry.find_child(node) {
                    Ok(index) => Ok((parent, index)),
                    Err(e) => Err(e),
                },
                None => Err(SubsetError::Orphan),
            }
        } else {
            Err(SubsetError::Orphan)
        }
    }

    /// Moves `child` under `parent`, at `pos` in its child list.
    fn add_child(&mut self, parent: usize, child: usize, pos: usize)
        requires
            old(self)@.live(parent),
            old(self)@.live(child),
            old(self)@.nodes[child].parent() matches Some(p) ==> old(self)@.live(p),
        ensures
            final(self)@ == old(self)@.with_nodes(
                add_child_nodes(old(self)@.nodes, parent, child, pos as int),
            ),
    {
        let missing = match arena_get(&self.arena, parent) {
            Some(entry) => match entry.find_child(child) {
                Err(SubsetError::WrongParent) => true,
                _ => false,
            },
            None => false,
        };
        if missing {
            let ghost nodes0 = self@.nodes;
            match arena_get_mut(&mut self.arena, parent) {
                Some(entry) => match entry.get_children_mut() {
                    Ok(children) => {
                        if pos > children.len() {
                            children.push(child);
                        } else {
                            children.insert(pos, child);
                        }
                    },
                    Err(_) => {},
                },
                None => {},
            }
            let ghost nodes1 = self@.nodes;
            proof {
                let kids = nodes0[parent].children();
                let placed = if pos > kids.len() {
                    kids.push(child)
                } else {
                    kids.insert(pos as int, child)
                };
                assert(nodes1 =~= nodes0.insert(parent, nodes0[parent].with_children(placed)));
            }
            let old_parent = match arena_get(&self.arena, child) {
                Some(entry) => entry.get_parent(),
                None => None,
            };
            if let Some(old_parent) = old_parent {
                match arena_get_mut(&mut self.arena, old_parent) {
                    Some(entry) => {
                        let _ = entry.remove_child(child);
                    },
                    None => {},
                }
            }
            let ghost nodes2 = self@.nodes;
            proof {
                assert(nodes2 =~= match nodes1[child].parent() {
                    Some(old_parent) => nodes1.insert(
                        old_parent,
                        nodes1[old_parent].with_children(
                            without(nodes1[old_parent].children(), child),
                        ),
                    ),
                    None => nodes1,
                });
            }
            match arena_get_mut(&mut self.arena, child) {
                Some(entry) => {
                    entry.set_parent(Some(parent));
                },
                None => {},
            }
            proof {
                assert(self@.nodes =~= nodes2.insert(child, nodes2[child].with_parent(Some(parent))));
                assert(self@ =~= old(self)@.with_nodes(
                    add_child_nodes(nodes0, parent, child, pos as int),
                ));
            }
        } else {
            assert(self@ =~= old(self)@.with_nodes(
                add_child_nodes(old(self)@.nodes, parent, child, pos as int),
            ));
        }
    }

    /// The slot of the leaf that stands for `window`.
    pub fn find(&self, window: Window) -> (res: Option<usize>)
        ensures
            match res {
                Some(slot) => self@.is_leaf_of(slot, window),
                None => !self@.contains_window(window),
            },
    {
        let slots = arena_slots(&self.arena);
        let mut k: usize = 0;
        while k < slots.len()
            invariant
                k <= slots.len(),
                forall|slot: usize|
                    slots@.contains(slot) <==> arena_entries(self.arena).dom().contains(slot),
                forall|j: int| 0 <= j < k ==> !self@.is_leaf_of(#[trigger] slots@[j], window),
            decreases slots.len() - k,
        {
            let slot = slots[k];
            if let Some(SubsetEntry::Client(_, w)) = arena_get(&self.arena, slot) {
                if *w == window {
                    assert(slots@.contains(slot));
                    return Some(slot);
                }
            }
            k = k + 1;
        }
        proof {
            assert forall|i: usize| !self@.is_leaf_of(i, window) by {
                if self@.live(i) {
                    assert(slots@.contains(i));
                    let j = choose|j: int| 0 <= j < slots@.len() && slots@[j] == i;
                    assert(!self@.is_leaf_of(slots@[j], window));
                }
            }
        }
        None
    }

    /// Whether some leaf stands for `window`.
    pub fn contains(&self, window: Window) -> (res: bool)
        ensures
            res == self@.contains_window(window),
    {
        self.find(window).is_some()
    }

    /// Lists the parentless leaf `node` at `at` among the children of `parent`.
    fn place_beside(&mut self, Ghost(t): Ghost<TreeView>, client: Window, node: usize, parent: usize, at: usize)
        requires
            old(self)@ == t.with_nodes(
                t.nodes.insert(node, EntryView::Client { parent: None, window: client }),
            ),
            !t.live(node),
            t.live(parent),
            t.nodes[parent] is Split,
            at <= t.nodes[parent].children().len(),
            forall|k: int|
                0 <= k < t.nodes[parent].children().len() ==> t.live(
                    #[trigger] t.nodes[parent].children()[k],
                ),
        ensures
            final(self)@ == t.with_nodes(beside(t, client, false, node, parent, at as int).nodes),
    {
        let ghost kids = t.nodes[parent].children();
        self.add_child(parent, node, at);
        proof {
            assert(!kids.contains(node));
            assert(self@.nodes =~= beside(t, client, false, node, parent, at as int).nodes);
        }
    }

    /// Puts the leaf `reference` and the parentless leaf `node` under a new
    /// split, which takes the place of `reference` among the children of
    /// `parent`.
    fn wrap_under(
        &mut self,
        Ghost(t): Ghost<TreeView>,
        client: Window,
        split: SplitDirection,
        left: bool,
        node: usize,
        reference: usize,
        parent: usize,
        index: usize,
    ) -> (inner: usize)
        requires
            old(self)@ == t.with_nodes(
                t.nodes.insert(node, EntryView::Client { parent: None, window: client }),
            ),
            !t.live(node),
            t.live(parent),
            t.nodes[parent] is Split,
            t.is_leaf(reference),
            t.nodes[reference].parent() == Some(parent),
            index < t.nodes[parent].children().len(),
            t.nodes[parent].children()[index as int] == reference,
            t.nodes[parent].children().no_duplicates(),
            forall|k: int|
                0 <= k < t.nodes[parent].children().len() ==> t.live(
                    #[trigger] t.nodes[parent].children()[k],
                ),
        ensures
            !t.live(inner),
            inner != node,
            final(self)@ == t.with_nodes(
                wrapped_under(
                    t,
                    client,
                    false,
                    split,
                    left,
                    node,
                    inner,
                    reference,
                    parent,
                    index as int,
                ).nodes,
            ),
    {
        let ghost kids = t.nodes[parent].children();
        let inner = self.add_inner_node(split);
        let ghost nodes2 = self@.nodes;
        self.add_child(parent, inner, index);
        let ghost nodes3 = self@.nodes;
        let ghost placed = kids.insert(index as int, inner);
        proof {
            assert(!kids.contains(inner));
            assert(nodes3 =~= nodes2.insert(parent, t.nodes[parent].with_children(placed)).insert(
                inner,
                EntryView::Split {
                    parent: Some(parent),
                    direction: split,
                    children: Seq::empty(),
                },
            ));
        }
        self.add_child(inner, reference, 0);
        let ghost nodes4 = self@.nodes;
        proof {
            kids.insert_ensures(index as int, inner);
            assert(placed.no_duplicates()) by {
                assert forall|a: int, b: int|
                    0 <= a < placed.len() && 0 <= b < placed.len() && a != b implies placed[a]
                    != placed[b] by {
                    let a0 = if a < index {
                        a
                    } else {
                        a - 1
                    };
                    let b0 = if b < index {
                        b
                    } else {
                        b - 1
                    };
                    if a != index {
                        assert(placed[a] == kids[a0]);
                    }
                    if b != index {
                        assert(placed[b] == kids[b0]);
                    }
                }
            }
            assert(placed[index + 1] == reference);
            lemma_without_unique(placed, index + 1);
            assert(placed.remove(index + 1) =~= kids.update(index as int, inner));
            assert(Seq::<usize>::empty().insert(0, reference) =~= seq![reference]);
            assert(nodes4 =~= nodes3.insert(
                inner,
                EntryView::Split {
                    parent: Some(parent),
                    direction: split,
                    children: seq![reference],
                },
            ).insert(
                parent,
                t.nodes[parent].with_children(kids.update(index as int, inner)),
            ).insert(reference, t.nodes[reference].with_parent(Some(inner))));
        }
        self.add_child(
            inner,
            node,
            if left {
                0
            } else {
                1
            },
        );
        proof {
            let one = seq![reference];
            assert(!one.contains(node));
            assert(one.insert(0, node) =~= seq![node, reference]);
            assert(one.insert(1, node) =~= seq![reference, node]);
            assert(self@.nodes =~= wrapped_under(
                t,
                client,
                false,
                split,
                left,
                node,
                inner,
                reference,
                parent,
                index as int,
            ).nodes);
        }
        inner
    }

    /// Puts the root leaf `reference` and the parentless leaf `node` under
    /// a new split, which becomes the root.
    fn wrap_root(
        &mut self,
        Ghost(t): Ghost<TreeView>,
        client: Window,
        split: SplitDirection,
        left: bool,
        node: usize,
        reference: usize,
    ) -> (inner: usize)
        requires
            old(self)@ == t.with_nodes(
                t.nodes.insert(node, EntryView::Client { parent: None, window: client }),
            ),
            !t.live(node),
            t.is_leaf(reference),
            t.nodes[reference].parent() is None,
        ensures
            !t.live(inner),
            inner != node,
            final(self)@ == (TreeView {
                nodes: wrapped_root(t, client, false, split, left, node, inner, reference).nodes,
                root: Some(inner),
                focused: t.focused,
                selected: t.selected,
            }),
    {
        let ghost nodes1 = self@.nodes;
        let inner = self.add_inner_node(split);
        self.add_child(inner, reference, 0);
        let ghost nodes3 = self@.nodes;
        proof {
            assert(Seq::<usize>::empty().insert(0, reference) =~= seq![reference]);
            assert(nodes3 =~= nodes1.insert(
                inner,
                EntryView::Split { parent: None, direction: split, children: seq![reference] },
            ).insert(reference, t.nodes[reference].with_parent(Some(inner))));
        }
        self.add_child(
            inner,
            node,
            if left {
                0
            } else {
                1
            },
        );
        self.root = Some(inner);
        proof {
            let one = seq![reference];
            assert(!one.contains(node));
            assert(one.insert(0, node) =~= seq![node, reference]);
            assert(one.insert(1, node) =~= seq![reference, node]);
            assert(self@.nodes =~= wrapped_root(
                t,
                client,
                false,
                split,
                left,
                node,
                inner,
                reference,
            ).nodes);
        }
        inner
    }

    /// Puts a leaf for `client` into the tree, next to the reference leaf
    /// (the selected one, else the focused one) or, wrapped together with
    /// it, in a new split that takes the reference's place. A window that
    /// has a leaf already is not added again.
    pub fn add(&mut self, client: Window, focus: bool, direction: InsertBias, split: SplitDirection)
        requires
            old(self).wf(),
        ensures
            final(self).wf(),
            old(self)@.add_result(final(self)@, client, focus, direction, split),
    {
        if self.find(client).is_some() {
            return ;
        }
        let ghost t = self@;
        let left = match direction {
            InsertBias::BelowLeft | InsertBias::NextToLeft => true,
            _ => false,
        };
        let beside_it = match direction {
            InsertBias::NextToLeft | InsertBias::NextToRight => true,
            _ => false,
        };
        let reference = match self.selected {
            Some(s) => Some(s),
            None => self.focused,
        };
        let node = self.add_client_node(client);
        let ghost spare = node;
        match reference {
            Some(reference) => {
                proof {
                    assert(t.is_leaf(reference));
                    assert(t.up_ok(reference));
                }
                match self.get_parent(reference) {
                    Ok((parent, index)) => {
                        proof {
                            lemma_child_position(t, parent, reference, index as int);
                        }
                        if beside_it {
                            let at = if left {
                                index
                            } else {
                                index + 1
                            };
                            self.place_beside(Ghost(t), client, node, parent, at);
                            proof {
                                lemma_add_beside_wf(t, client, focus, node, parent, at as int);
                            }
                        } else {
                            let inner = self.wrap_under(
                                Ghost(t),
                                client,
                                split,
                                left,
                                node,
                                reference,
                                parent,
                                index,
                            );
                            proof {
                                spare = inner;
                                lemma_wrapped_under_wf(
                                    t,
                                    client,
                                    focus,
                                    split,
                                    left,
                                    node,
                                    inner,
                                    reference,
                                    parent,
                                    index as int,
                                );
                            }
                        }
                    },
                    Err(_) => {
                        let inner = self.wrap_root(Ghost(t), client, split, left, node, reference);
                        proof {
                            spare = inner;
                            lemma_wrapped_root_wf(
                                t,
                                client,
                                focus,
                                split,
                                left,
                                node,
                                inner,
                                reference,
                            );
                        }
                    },
                }
            },
            None => {
                self.root = Some(node);
                proof {
                    lemma_add_first_wf(t, client, focus, node);
                }
            },
        }
        if focus || self.focused.is_none() {
            self.focused = Some(node);
        }
        proof {
            assert(self@ =~= t.added(client, focus, direction, split, node, spare));
        }
    }

    /// The first leaf below `start` in the order of the leaves, or the last.
    fn descend(&self, start: usize, first: bool) -> (leaf: usize)
        requires
            self.wf(),
            self@.live(start),
        ensures
            leaf == self@.edge_leaf_of(start, first),
            self@.is_leaf(leaf),
            leaf == start || (self@.nodes[leaf].parent() matches Some(q) && self@.live(q)
                && self@.rank()[q] <= self@.rank()[start]),
    {
        let ghost t = self@;
        let ghost rank = t.rank();
        let mut cur = start;
        let mut done = false;
        while !done
            invariant
                self@ == t,
                t.wf(),
                rank == t.rank(),
                ranked(t.nodes, rank),
                t.live(cur),
                edge_leaf(t.nodes, rank, cur, first) == edge_leaf(t.nodes, rank, start, first),
                rank[cur] <= rank[start],
                cur == start || (t.nodes[cur].parent() matches Some(q) && t.live(q) && rank[q]
                    <= rank[start]),
                done ==> t.is_leaf(cur),
            decreases
                    (if done {
                        0
                    } else {
                        rank[cur] + 1
                    }),
        {
            let next = match arena_get(&self.arena, cur) {
                Some(SubsetEntry::Split(_, _, children)) => {
                    if children.len() > 0 {
                        Some(
                            if first {
                                children[0]
                            } else {
                                children[children.len() - 1]
                            },
                        )
                    } else {
                        None
                    }
                },
                _ => None,
            };
            match next {
                Some(child) => {
                    proof {
                        let kids = t.nodes[cur].children();
                        let k = if first {
                            0
                        } else {
                            kids.len() - 1
                        };
                        assert(child == kids[k]);
                        assert(rank[kids[k]] < rank[cur]);
                        assert(t.live(kids[k]));
                    }
                    cur = child;
                },
                None => {
                    done = true;
                },
            }
        }
        cur
    }

    /// The leaf that takes the focus over from child number `index` of
    /// `parent`.
    fn fallback_leaf(&self, parent: usize, index: usize) -> (leaf: usize)
        requires
            self.wf(),
            self@.live(parent),
            index < self@.nodes[parent].children().len(),
        ensures
            leaf == self@.fallback(parent, index as int),
            self@.is_leaf(leaf),
            leaf != self@.nodes[parent].children()[index as int],
    {
        let ghost t = self@;
        let ghost kids = t.nodes[parent].children();
        let ghost rank = t.rank();
        let start_first = match arena_get(&self.arena, parent) {
            Some(SubsetEntry::Split(_, _, children)) => {
                if children.len() > 0 && index < children.len() - 1 {
                    Some((children[index + 1], true))
                } else if index > 0 && index - 1 < children.len() {
                    Some((children[index - 1], false))
                } else {
                    None
                }
            },
            _ => None,
        };
        proof {
            assert(kids.len() >= 2);
        }
        match start_first {
            Some((start, first)) => {
                proof {
                    let k = if first {
                        index + 1
                    } else {
                        index - 1
                    };
                    assert(start == kids[k]);
                    assert(t.live(kids[k]));
                    assert(rank[kids[k]] < rank[parent]);
                    assert(t.nodes[kids[index as int]].parent() == Some(parent));
                }
                self.descend(start, first)
            },
            None => parent,
        }
    }

    /// Vacates a slot.
    fn free(&mut self, slot: usize)
        ensures
            final(self)@ == old(self)@.with_nodes(old(self)@.nodes.remove(slot)),
    {
        let _ = arena_remove(&mut self.arena, slot);
        proof {
            assert(self@.nodes =~= old(self)@.nodes.remove(slot));
        }
    }

    /// Gives the node in `slot` another parent.
    fn reparent(&mut self, slot: usize, parent: Option<usize>)
        requires
            old(self)@.live(slot),
        ensures
            final(self)@ == old(self)@.with_nodes(
                old(self)@.nodes.insert(slot, old(self)@.nodes[slot].with_parent(parent)),
            ),
    {
        match arena_get_mut(&mut self.arena, slot) {
            Some(entry) => {
                entry.set_parent(parent);
            },
            None => {},
        }
        proof {
            assert(self@.nodes =~= old(self)@.nodes.insert(
                slot,
                old(self)@.nodes[slot].with_parent(parent),
            ));
        }
    }

    /// Drops child number `index` from the child list of `parent`; where
    /// exactly one child is left, that child is returned.
    fn unlist(&mut self, parent: usize, index: usize) -> (only: Option<usize>)
        requires
            old(self)@.live(parent),
            old(self)@.nodes[parent] is Split,
            index < old(self)@.nodes[parent].children().len(),
        ensures
            final(self)@ == old(self)@.with_nodes(
                old(self)@.nodes.insert(
                    parent,
                    old(self)@.nodes[parent].with_children(
                        old(self)@.nodes[parent].children().remove(index as int),
                    ),
                ),
            ),
            match only {
                Some(o) => old(self)@.nodes[parent].children().len() == 2 && o == old(
                    self,
                )@.nodes[parent].children()[1 - index],
                None => old(self)@.nodes[parent].children().len() != 2,
            },
    {
        let mut only = None;
        match arena_get_mut(&mut self.arena, parent) {
            Some(entry) => match entry.get_children_mut() {
                Ok(children) => {
                    let _ = children.remove(index);
                    if children.len() == 1 {
                        only = Some(children[0]);
                    }
                },
                Err(_) => {},
            },
            None => {},
        }
        proof {
            let kids = old(self)@.nodes[parent].children();
            assert(self@.nodes =~= old(self)@.nodes.insert(
                parent,
                old(self)@.nodes[parent].with_children(kids.remove(index as int)),
            ));
        }
        only
    }

    /// Puts `other` where `grand` lists `parent`.
    fn relist(&mut self, grand: usize, parent: usize, other: usize)
        requires
            old(self)@.live(grand),
            old(self)@.nodes[grand] is Split,
            old(self)@.nodes[grand].children().contains(parent),
            old(self)@.nodes[grand].children().no_duplicates(),
        ensures
            final(self)@ == old(self)@.with_nodes(
                old(self)@.nodes.insert(
                    grand,
                    old(self)@.nodes[grand].with_children(
                        old(self)@.nodes[grand].children().update(
                            old(self)@.nodes[grand].children().index_of(parent),
                            other,
                        ),
                    ),
                ),
            ),
    {
        let ghost gk = self@.nodes[grand].children();
        let ghost gidx = gk.index_of(parent);
        proof {
            assert(0 <= gidx < gk.len() && gk[gidx] == parent);
        }
        match arena_get_mut(&mut self.arena, grand) {
            Some(entry) => {
                let at = match entry.find_child(parent) {
                    Ok(at) => Some(at),
                    Err(_) => None,
                };
                if let Some(at) = at {
                    assert(gk[at as int] == parent);
                    assert(at as int == gidx);
                    match entry.get_children_mut() {
                        Ok(children) => {
                            children.set(at, other);
                        },
                        Err(_) => {},
                    }
                }
            },
            None => {},
        }
        proof {
            assert(self@.nodes =~= old(self)@.nodes.insert(
                grand,
                old(self)@.nodes[grand].with_children(gk.update(gidx, other)),
            ));
        }
    }

    /// Takes the leaf in slot `leaf` out of the tree and leaves the tree
    /// with the selection `selected`.
    fn remove_leaf(&mut self, leaf: usize, selected: Option<usize>)
        requires
            old(self).wf(),
            old(self)@.is_leaf(leaf),
            selected matches Some(s) ==> old(self)@.is_leaf(s) && s != leaf,
        ensures
            final(self).wf(),
            final(self)@ == old(self)@.removed(leaf, selected),
    {
        let ghost t = self@;
        proof {
            assert(t.up_ok(leaf));
        }
        match self.get_parent(leaf) {
            Ok((parent, index)) => {
                proof {
                    lemma_child_position(t, parent, leaf, index as int);
                }
                let ghost kids = t.nodes[parent].children();
                let focused = if self.focused == Some(leaf) {
                    Some(self.fallback_leaf(parent, index))
                } else {
                    self.focused
                };
                let grand = match arena_get(&self.arena, parent) {
                    Some(entry) => entry.get_parent(),
                    None => None,
                };
                let other = self.unlist(parent, index);
                self.free(leaf);
                match other {
                    Some(other) => {
                        proof {
                            assert(kids.contains(leaf) && kids.contains(other));
                            assert(kids[index as int] != kids[1 - index]);
                            assert(t.up_ok(parent));
                            assert(t.live(kids[1 - index]));
                        }
                        self.free(parent);
                        self.reparent(other, grand);
                        match grand {
                            Some(grand) => {
                                let ghost gk = t.nodes[grand].children();
                                let ghost gidx = gk.index_of(parent);
                                proof {
                                    assert(0 <= gidx < gk.len() && gk[gidx] == parent);
                                    let rank = t.rank();
                                    assert(rank[gk[gidx]] < rank[grand]);
                                    assert(rank[kids[1 - index]] < rank[parent]);
                                    assert(self@.nodes[grand] == t.nodes[grand]);
                                }
                                self.relist(grand, parent, other);
                                proof {
                                    assert(self@.nodes =~= collapsed_under(
                                        t,
                                        leaf,
                                        parent,
                                        other,
                                        grand,
                                        gidx,
                                        focused,
                                        selected,
                                    ).nodes);
                                    lemma_collapsed_under_wf(
                                        t,
                                        leaf,
                                        parent,
                                        other,
                                        grand,
                                        gidx,
                                        focused,
                                        selected,
                                    );
                                }
                            },
                            None => {
                                self.root = Some(other);
                                proof {
                                    assert(self@.nodes =~= collapsed_root(
                                        t,
                                        leaf,
                                        parent,
                                        other,
                                        focused,
                                        selected,
                                    ).nodes);
                                    lemma_collapsed_root_wf(
                                        t,
                                        leaf,
                                        parent,
                                        other,
                                        focused,
                                        selected,
                                    );
                                }
                            },
                        }
                    },
                    None => {
                        proof {
                            assert(self@.nodes =~= pruned(
                                t,
                                leaf,
                                parent,
                                index as int,
                                focused,
                                selected,
                            ).nodes);
                            lemma_pruned_wf(t, leaf, parent, index as int, focused, selected);
                        }
                    },
                }
                self.focused = focused;
                self.selected = selected;
            },
            Err(_) => {
                self.free(leaf);
                self.root = None;
                self.focused = None;
                self.selected = None;
                proof {
                    lemma_lone_leaf(t, leaf);
                    assert(self@.nodes =~= Map::<usize, EntryView>::empty()) by {
                        assert forall|i: usize| !self@.nodes.dom().contains(i) by {
                            if t.live(i) {
                                assert(i == leaf);
                            }
                        }
                    }
                    assert(ranked(self@.nodes, Map::<usize, nat>::empty()));
                }
            },
        }
    }

    /// Takes the leaf of `window` out of the tree. A split that is left
    /// with one child gives its place to that child; where the leaf had the
    /// focus, the focus goes to the first leaf of the sibling after it,
    /// else to the last leaf of the sibling before it.
    pub fn remove(&mut self, window: Window)
        requires
            old(self).wf(),
        ensures
            final(self).wf(),
            old(self)@.remove_result(final(self)@, window),
    {
        match self.find(window) {
            Some(leaf) => {
                proof {
                    let chosen = self@.leaf_of(window);
                    assert(self@.is_leaf_of(leaf, window));
                    assert(self@.is_leaf_of(chosen, window));
                    assert(self@.is_leaf(leaf) && self@.is_leaf(chosen));
                }
                let selected = if self.selected == Some(leaf) {
                    None
                } else {
                    self.selected
                };
                self.remove_leaf(leaf, selected);
            },
            None => {},
        }
    }

    /// Takes the reference leaf (the selected one, else the focused one)
    /// out of the tree and clears the selection.
    pub fn remove_subtree(&mut self)
        requires
            old(self).wf(),
        ensures
            final(self).wf(),
            final(self)@ == (match old(self)@.reference() {
                Some(r) => old(self)@.removed(r, None),
                None => old(self)@,
            }),
    {
        let reference = match self.selected {
            Some(s) => Some(s),
            None => self.focused,
        };
        if let Some(node) = reference {
            self.remove_leaf(node, None);
        }
    }

    /// The window of the focused leaf.
    pub fn get_focused(&self) -> (window: Option<Window>)
        requires
            self.wf(),
        ensures
            window == self@.focused_window(),
    {
        match self.focused {
            Some(slot) => match arena_get(&self.arena, slot) {
                Some(SubsetEntry::Client(_, window)) => Some(*window),
                _ => None,
            },
            None => None,
        }
    }

    /// Appends the windows of the leaves below `node` to `out`.
    fn collect(&self, node: usize, out: &mut Vec<Window>)
        requires
            self.wf(),
            self@.live(node),
        ensures
            final(out)@ == old(out)@ + self@.leaves_under(node),
        decreases self@.rank()[node],
    {
        let ghost t = self@;
        let ghost rank = t.rank();
        let ghost start = out@;
        match arena_get(&self.arena, node) {
            Some(SubsetEntry::Client(_, window)) => {
                out.push(*window);
                assert(out@ =~= start + t.leaves_under(node));
            },
            Some(SubsetEntry::Split(_, _, children)) => {
                let mut k: usize = 0;
                while k < children.len()
                    invariant
                        k <= children.len(),
                        self@ == t,
                        t.wf(),
                        rank == t.rank(),
                        ranked(t.nodes, rank),
                        t.live(node),
                        t.nodes[node] is Split,
                        children@ == t.nodes[node].children(),
                        out@ == start + leaves_below(t.nodes, rank, node, k as nat),
                    decreases children.len() - k,
                {
                    let child = children[k];
                    proof {
                        assert(child == t.nodes[node].children()[k as int]);
                        assert(rank[t.nodes[node].children()[k as int]] < rank[node]);
                        assert(t.live(t.nodes[node].children()[k as int]));
                    }
                    self.collect(child, out);
                    proof {
                        assert(out@ =~= start + leaves_below(t.nodes, rank, node, (k + 1) as nat));
                    }
                    k = k + 1;
                }
            },
            None => {},
        }
    }

    /// The windows of the tree in the order of its leaves: every window
    /// that has a leaf, once.
    pub fn leaves(&self) -> (windows: Vec<Window>)
        requires
            self.wf(),
        ensures
            windows@ == self@.leaves(),
            windows@.no_duplicates(),
            forall|w: Window| windows@.contains(w) <==> self@.contains_window(w),
    {
        proof {
            crate::wm::tree_order::lemma_leaves_list_windows(self@);
        }
        let mut windows: Vec<Window> = Vec::new();
        if let Some(root) = self.root {
            self.collect(root, &mut windows);
        }
        windows
    }

    /// Whether the tree has no leaf.
    pub fn is_empty(&self) -> (res: bool)
        ensures
            res == (self@.root is None),
    {
        self.root.is_none()
    }

    /// Puts the focus on the leaf of `window` and tells whether the focus
    /// moved; a window without a leaf leaves the focus where it is.
    pub fn set_focus(&mut self, window: Window) -> (moved: bool)
        requires
            old(self).wf(),
        ensures
            final(self).wf(),
            final(self)@ == (if old(self)@.contains_window(window) {
                old(self)@.focused_on(window)
            } else {
                old(self)@
            }),
            moved == (final(self)@.focused != old(self)@.focused),
    {
        match self.find(window) {
            Some(leaf) => {
                proof {
                    lemma_leaf_of(self@, leaf, window);
                }
                let moved = match self.focused {
                    Some(f) => f != leaf,
                    None => true,
                };
                self.focused = Some(leaf);
                proof {
                    lemma_marks_moved(old(self)@, self@);
                }
                moved
            },
            None => false,
        }
    }

    /// Selects the leaf of `window` as the reference of insertions and
    /// removals and tells whether there is such a leaf.
    pub fn select(&mut self, window: Window) -> (found: bool)
        requires
            old(self).wf(),
        ensures
            final(self).wf(),
            found == old(self)@.contains_window(window),
            final(self)@ == (if found {
                old(self)@.selecting(window)
            } else {
                old(self)@
            }),
    {
        match self.find(window) {
            Some(leaf) => {
                proof {
                    lemma_leaf_of(self@, leaf, window);
                }
                self.selected = Some(leaf);
                proof {
                    lemma_marks_moved(old(self)@, self@);
                }
                true
            },
            None => false,
        }
    }

    /// Clears the selection.
    pub fn deselect(&mut self)
        requires
            old(self).wf(),
        ensures
            final(self).wf(),
            final(self)@ == (TreeView { selected: None, ..old(self)@ }),
    {
        self.selected = None;
        proof {
            lemma_marks_moved(old(self)@, self@);
        }
    }

    /// The window of the selected leaf.
    pub fn get_selected(&self) -> (window: Option<Window>)
        requires
            self.wf(),
        ensures
            window == (match self@.selected {
                Some(s) => Some(self@.nodes[s]->window),
                None => None,
            }),
    {
        match self.selected {
            Some(slot) => match arena_get(&self.arena, slot) {
                Some(SubsetEntry::Client(_, window)) => Some(*window),
                _ => None,
            },
            None => None,
        }
    }

    /// Lets two windows change places in the tree and tells whether
    /// anything changed: it does where both have a leaf and they differ.
    pub fn swap(&mut self, a: Window, b: Window) -> (changed: bool)
        requires
            old(self).wf(),
        ensures
            final(self).wf(),
            changed == (a != b && old(self)@.contains_window(a) && old(self)@.contains_window(b)),
            final(self)@ == (if changed {
                old(self)@.exchanged(a, b)
            } else {
                old(self)@
            }),
    {
        if a == b {
            return false;
        }
        let la = match self.find(a) {
            Some(leaf) => leaf,
            None => {
                return false;
            },
        };
        let lb = match self.find(b) {
            Some(leaf) => leaf,
            None => {
                return false;
            },
        };
        let ghost t = self@;
        proof {
            lemma_leaf_of(t, la, a);
            lemma_leaf_of(t, lb, b);
            lemma_exchanged_wf(t, a, b);
        }
        self.relabel(la, b);
        self.relabel(lb, a);
        self.focused = Self::swap_mark(self.focused, la, lb);
        self.selected = Self::swap_mark(self.selected, la, lb);
        proof {
            assert(self@.nodes =~= t.exchanged(a, b).nodes);
        }
        true
    }

    /// Slot `lb` for a mark on `la`, slot `la` for a mark on `lb`.
    fn swap_mark(mark: Option<usize>, la: usize, lb: usize) -> (res: Option<usize>)
        ensures
            res == TreeView::mark_after_swap(mark, la, lb),
    {
        match mark {
            Some(m) => if m == la {
                Some(lb)
            } else if m == lb {
                Some(la)
            } else {
                Some(m)
            },
            None => None,
        }
    }

    /// Makes the leaf in `slot` stand for another window.
    fn relabel(&mut self, slot: usize, window: Window)
        requires
            old(self)@.is_leaf(slot),
        ensures
            final(self)@ == old(self)@.with_nodes(
                old(self)@.nodes.insert(
                    slot,
                    EntryView::Client { parent: old(self)@.nodes[slot].parent(), window },
                ),
            ),
    {
        match arena_get_mut(&mut self.arena, slot) {
            Some(entry) => {
                let parent = entry.get_parent();
                *entry = SubsetEntry::Client(parent, window);
            },
            None => {},
        }
        proof {
            assert(self@.nodes =~= old(self)@.nodes.insert(
                slot,
                EntryView::Client { parent: old(self)@.nodes[slot].parent(), window },
            ));
        }
    }

    /// The parent of the node in `slot` and the position of the node among
    /// the children of the parent; the root is an orphan.
    pub fn parent_of(&self, slot: usize) -> (res: SubsetResult<(usize, usize)>)
        requires
            self.wf(),
            self@.live(slot),
        ensures
            match res {
                Ok((parent, index)) => self@.nodes[slot].parent() == Some(parent) && first_at(
                    self@.nodes[parent].children(),
                    slot,
                    index as int,
                ),
                Err(e) => e == SubsetError::Orphan && self@.root == Some(slot),
            },
    {
        proof {
            assert(self@.up_ok(slot));
        }
        self.get_parent(slot)
    }

    /// The slot of the root.
    pub fn root(&self) -> (slot: Option<usize>)
        ensures
            slot == self@.root,
    {
        self.root
    }

    /// The node in a slot.
    pub fn get(&self, slot: usize) -> (entry: Option<&SubsetEntry>)
        ensures
            match entry {
                Some(e) => self@.live(slot) && e@ == self@.nodes[slot],
                None => !self@.live(slot),
            },
    {
        arena_get(&self.arena, slot)
    }

    /// Appends `node` and the nodes below it to `out`.
    fn gather(&self, node: usize, out: &mut Vec<usize>)
        requires
            self.wf(),
            self@.live(node),
        ensures
            final(out)@ == old(out)@ + self@.subtree(node),
        decreases self@.rank()[node],
    {
        let ghost t = self@;
        let ghost rank = t.rank();
        let ghost start = out@;
        out.push(node);
        assert(out@ =~= start + nodes_below(t.nodes, rank, node, 0));
        if let Some(SubsetEntry::Split(_, _, children)) = arena_get(&self.arena, node) {
            let mut k: usize = 0;
            while k < children.len()
                invariant
                    k <= children.len(),
                    self@ == t,
                    t.wf(),
                    rank == t.rank(),
                    ranked(t.nodes, rank),
                    t.live(node),
                    children@ == t.nodes[node].children(),
                    out@ == start + nodes_below(t.nodes, rank, node, k as nat),
                decreases children.len() - k,
            {
                let child = children[k];
                proof {
                    assert(child == t.nodes[node].children()[k as int]);
                    assert(rank[t.nodes[node].children()[k as int]] < rank[node]);
                    assert(t.live(t.nodes[node].children()[k as int]));
                }
                self.gather(child, out);
                proof {
                    assert(out@ =~= start + nodes_below(t.nodes, rank, node, (k + 1) as nat));
                }
                k = k + 1;
            }
        }
    }

    /// The slots of `node` and of all nodes below it: the node first,
    /// then, child by child, each child with all that is below it.
    pub fn enumerate_subtree(&self, node: usize) -> (slots: Vec<usize>)
        requires
            self.wf(),
            self@.live(node),
        ensures
            slots@ == self@.subtree(node),
    {
        let mut slots: Vec<usize> = Vec::new();
        self.gather(node, &mut slots);
        slots
    }

    /// Lets the reference leaf (the selected one, else the focused one)
    /// change places with the sibling next to it: the one before it for a
    /// bias to the left, the one after it for a bias to the right.
    pub fn swap_subtrees(&mut self, direction: InsertBias)
        requires
            old(self).wf(),
        ensures
            final(self).wf(),
            final(self)@ == old(self)@.shifted(direction),
    {
        let reference = match self.selected {
            Some(s) => Some(s),
            None => self.focused,
        };
        let ghost t = self@;
        if let Some(reference) = reference {
            proof {
                assert(t.is_leaf(reference));
                assert(t.up_ok(reference));
            }
            if let Ok((parent, index)) = self.get_parent(reference) {
                proof {
                    lemma_child_position(t, parent, reference, index as int);
                }
                let left = match direction {
                    InsertBias::BelowLeft | InsertBias::NextToLeft => true,
                    _ => false,
                };
                match arena_get_mut(&mut self.arena, parent) {
                    Some(entry) => match entry.get_children_mut() {
                        Ok(children) => {
                            if left {
                                if index > 0 {
                                    let a = children[index];
                                    let b = children[index - 1];
                                    children.set(index, b);
                                    children.set(index - 1, a);
                                }
                            } else {
                                if index + 1 < children.len() {
                                    let a = children[index];
                                    let b = children[index + 1];
                                    children.set(index, b);
                                    children.set(index + 1, a);
                                }
                            }
                        },
                        Err(_) => {},
                    },
                    None => {},
                }
                proof {
                    let kids = t.nodes[parent].children();
                    let other = if left {
                        index - 1
                    } else {
                        index + 1
                    };
                    if 0 <= other < kids.len() {
                        assert(self@.nodes =~= reordered(t, parent, index as int, other).nodes);
                        lemma_reordered_wf(t, parent, index as int, other);
                    } else {
                        assert(self@.nodes =~= t.nodes);
                    }
                }
            }
        }
    }
}

} // verus!
