//! The mathematical model of a subset tree: a finite map from slots to
//! nodes, with the slots of the root, the focused leaf and the selected leaf.

use vstd::prelude::*;

use crate::wm::layout::SplitDirection;
use crate::wm::subset::{without, EntryView, InsertBias, Window};

verus! {

/// The value of a subset tree.
#[verifier::ext_equal]
pub struct TreeView {
    /// The occupied slots and the node in each.
    pub nodes: Map<usize, EntryView>,
    /// The slot of the root, if the tree is not empty.
    pub root: Option<usize>,
    /// The slot of the focused leaf.
    pub focused: Option<usize>,
    /// The slot of the selected leaf.
    pub selected: Option<usize>,
}

/// `rank` gives every node a number greater than that of each of its
/// children; such a numbering exists only where no node is its own ancestor.
pub open spec fn ranked(nodes: Map<usize, EntryView>, rank: Map<usize, nat>) -> bool {
    forall|i: usize, k: int|
        nodes.dom().contains(i) && 0 <= k < nodes[i].children().len() ==> rank[#[trigger] nodes[i].children()[k]]
            < rank[i]
}

/// The node map after `child` was put into the child list of `parent` at
/// `pos` (at the end when `pos` is past it), taken out of the list of the
/// parent it had, and given `parent` as its parent. Nothing changes when
/// `parent` is a leaf or lists `child` already.
pub open spec fn add_child_nodes(
    nodes: Map<usize, EntryView>,
    parent: usize,
    child: usize,
    pos: int,
) -> Map<usize, EntryView> {
    let kids = nodes[parent].children();
    if nodes[parent] is Split && !kids.contains(child) {
        let placed = if pos > kids.len() {
            kids.push(child)
        } else {
            kids.insert(pos, child)
        };
        let with_child = nodes.insert(parent, nodes[parent].with_children(placed));
        let detached = match with_child[child].parent() {
            Some(old_parent) => with_child.insert(
                old_parent,
                with_child[old_parent].with_children(
                    without(with_child[old_parent].children(), child),
                ),
            ),
            None => with_child,
        };
        detached.insert(child, detached[child].with_parent(Some(parent)))
    } else {
        nodes
    }
}

impl TreeView {
    /// Slot `i` is occupied.
    pub open spec fn live(self, i: usize) -> bool {
        self.nodes.dom().contains(i)
    }

    /// Slot `i` holds a leaf.
    pub open spec fn is_leaf(self, i: usize) -> bool {
        self.live(i) && self.nodes[i] is Client
    }

    /// Slot `i` holds the leaf of window `w`.
    pub open spec fn is_leaf_of(self, i: usize, w: Window) -> bool {
        self.is_leaf(i) && self.nodes[i]->window == w
    }

    /// Some leaf stands for window `w`.
    pub open spec fn contains_window(self, w: Window) -> bool {
        exists|i: usize| self.is_leaf_of(i, w)
    }

    /// The windows that have a leaf in the tree.
    pub open spec fn windows(self) -> Set<Window> {
        Set::new(|w: Window| self.contains_window(w))
    }

    /// The window of the focused leaf.
    pub open spec fn focused_window(self) -> Option<Window> {
        match self.focused {
            Some(f) => Some(self.nodes[f]->window),
            None => None,
        }
    }

    /// The node that insertion and removal refer to: the selected leaf,
    /// else the focused one.
    pub open spec fn reference(self) -> Option<usize> {
        match self.selected {
            Some(s) => Some(s),
            None => self.focused,
        }
    }

    /// The root is an occupied slot without a parent; an empty tree has no
    /// occupied slot at all.
    pub open spec fn root_ok(self) -> bool {
        match self.root {
            Some(r) => self.live(r) && self.nodes[r].parent() is None,
            None => forall|i: usize| !self.live(i),
        }
    }

    /// The node in slot `i` is the root, or its parent is an inner node
    /// that lists it.
    pub open spec fn up_ok(self, i: usize) -> bool {
        match self.nodes[i].parent() {
            Some(p) => self.live(p) && self.nodes[p] is Split && self.nodes[p].children().contains(i),
            None => self.root == Some(i),
        }
    }

    /// Every node but the root has an inner node as its parent, which lists it.
    pub open spec fn up_links_ok(self) -> bool {
        forall|i: usize| self.live(i) ==> #[trigger] self.up_ok(i)
    }

    /// Every listed child is occupied and names the listing node as parent.
    pub open spec fn down_links_ok(self) -> bool {
        forall|i: usize, k: int|
            self.live(i) && 0 <= k < self.nodes[i].children().len() ==> self.live(
                #[trigger] self.nodes[i].children()[k],
            ) && self.nodes[self.nodes[i].children()[k]].parent() == Some(i)
    }

    /// Every inner node has at least two children, each listed once.
    pub open spec fn splits_ok(self) -> bool {
        forall|i: usize| #[trigger]
            self.live(i) && self.nodes[i] is Split ==> self.nodes[i].children().len() >= 2
                && self.nodes[i].children().no_duplicates()
    }

    /// No two leaves stand for the same window.
    pub open spec fn windows_unique(self) -> bool {
        forall|i: usize, j: usize|
            #![trigger self.is_leaf(i), self.is_leaf(j)]
            self.is_leaf(i) && self.is_leaf(j) && self.nodes[i]->window == self.nodes[j]->window
                ==> i == j
    }

    /// Focus and selection point at leaves, and a tree that is not empty has
    /// a focused leaf.
    pub open spec fn marks_ok(self) -> bool {
        &&& match self.focused {
            Some(f) => self.is_leaf(f),
            None => self.root is None,
        }
        &&& match self.selected {
            Some(s) => self.is_leaf(s),
            None => true,
        }
    }

    /// No node is its own ancestor.
    pub open spec fn acyclic(self) -> bool {
        exists|rank: Map<usize, nat>| ranked(self.nodes, rank)
    }

    /// The invariant of a subset tree.
    pub open spec fn wf(self) -> bool {
        &&& self.nodes.dom().finite()
        &&& self.root_ok()
        &&& self.up_links_ok()
        &&& self.down_links_ok()
        &&& self.splits_ok()
        &&& self.windows_unique()
        &&& self.marks_ok()
        &&& self.acyclic()
    }

    /// The focus after a leaf was put into slot `n`: the new leaf where
    /// focus was asked for or there was none, else as before.
    pub open spec fn focus_after_add(self, focus: bool, n: usize) -> Option<usize> {
        if focus || self.focused is None {
            Some(n)
        } else {
            self.focused
        }
    }

    /// The tree after a leaf for `w` was put into the vacant slot `n`, and,
    /// where the reference had to be wrapped, a split into the vacant slot `s`.
    pub open spec fn added(
        self,
        w: Window,
        focus: bool,
        bias: InsertBias,
        split: SplitDirection,
        n: usize,
        s: usize,
    ) -> TreeView {
        let left = bias is BelowLeft || bias is NextToLeft;
        let beside_it = bias is NextToLeft || bias is NextToRight;
        match self.reference() {
            None => TreeView {
                nodes: self.nodes.insert(n, EntryView::Client { parent: None, window: w }),
                root: Some(n),
                focused: self.focus_after_add(focus, n),
                selected: self.selected,
            },
            Some(r) => match self.nodes[r].parent() {
                Some(p) => {
                    let idx = self.nodes[p].children().index_of(r);
                    if beside_it {
                        beside(
                            self,
                            w,
                            focus,
                            n,
                            p,
                            if left {
                                idx
                            } else {
                                idx + 1
                            },
                        )
                    } else {
                        wrapped_under(self, w, focus, split, left, n, s, r, p, idx)
                    }
                },
                None => wrapped_root(self, w, focus, split, left, n, s, r),
            },
        }
    }

    /// Whether an insertion with this bias makes a new split: it does where
    /// the bias asks for one, and where the reference is the root.
    pub open spec fn wraps(self, bias: InsertBias) -> bool {
        match self.reference() {
            Some(r) => bias is BelowLeft || bias is BelowRight || self.nodes[r].parent() is None,
            None => false,
        }
    }

    /// What `add` does to a tree: nothing where the window has a leaf
    /// already, else the insertion above, into slots that were vacant.
    pub open spec fn add_result(
        self,
        after: TreeView,
        w: Window,
        focus: bool,
        bias: InsertBias,
        split: SplitDirection,
    ) -> bool {
        if self.contains_window(w) {
            after == self
        } else {
            exists|n: usize, s: usize|
                !self.live(n) && (self.wraps(bias) ==> !self.live(s) && n != s) && after
                    == #[trigger] self.added(w, focus, bias, split, n, s)
        }
    }

    /// A numbering of the nodes that falls from every parent to its child.
    pub open spec fn rank(self) -> Map<usize, nat> {
        choose|rank: Map<usize, nat>| ranked(self.nodes, rank)
    }

    /// The first leaf below `node` in the order of the leaves, or the last.
    pub open spec fn edge_leaf_of(self, node: usize, first: bool) -> usize {
        edge_leaf(self.nodes, self.rank(), node, first)
    }

    /// The leaf that gets the focus when the focused child number `idx` of
    /// `p` goes: the first leaf of the sibling after it, else the last leaf
    /// of the sibling before it.
    pub open spec fn fallback(self, p: usize, idx: int) -> usize {
        let kids = self.nodes[p].children();
        if idx + 1 < kids.len() {
            self.edge_leaf_of(kids[idx + 1], true)
        } else {
            self.edge_leaf_of(kids[idx - 1], false)
        }
    }

    /// The tree after the leaf in slot `l` was taken out; `selected` is
    /// the selection that the tree is left with. A split left with one
    /// child gives its place to that child, and the focus, if it was on
    /// `l`, goes to the fallback leaf.
    pub open spec fn removed(self, l: usize, selected: Option<usize>) -> TreeView {
        match self.nodes[l].parent() {
            None => TreeView { nodes: Map::empty(), root: None, focused: None, selected: None },
            Some(p) => {
                let kids = self.nodes[p].children();
                let idx = kids.index_of(l);
                let focused = if self.focused == Some(l) {
                    Some(self.fallback(p, idx))
                } else {
                    self.focused
                };
                if kids.len() >= 3 {
                    pruned(self, l, p, idx, focused, selected)
                } else {
                    let o = kids[1 - idx];
                    match self.nodes[p].parent() {
                        None => collapsed_root(self, l, p, o, focused, selected),
                        Some(g) => collapsed_under(
                            self,
                            l,
                            p,
                            o,
                            g,
                            self.nodes[g].children().index_of(p),
                            focused,
                            selected,
                        ),
                    }
                }
            },
        }
    }

    /// The slot of the leaf that stands for `w`.
    pub open spec fn leaf_of(self, w: Window) -> usize {
        choose|i: usize| self.is_leaf_of(i, w)
    }

    /// The selection without the leaf `l`.
    pub open spec fn selected_without(self, l: usize) -> Option<usize> {
        if self.selected == Some(l) {
            None
        } else {
            self.selected
        }
    }

    /// What `remove` does to a tree: nothing where the window has no leaf,
    /// else the removal of its leaf.
    pub open spec fn remove_result(self, after: TreeView, w: Window) -> bool {
        if self.contains_window(w) {
            after == self.removed(self.leaf_of(w), self.selected_without(self.leaf_of(w)))
        } else {
            after == self
        }
    }

    /// The windows of all leaves below `node`, from first to last.
    pub open spec fn leaves_under(self, node: usize) -> Seq<Window> {
        leaves_below(self.nodes, self.rank(), node, self.nodes[node].children().len())
    }

    /// The windows of the tree in the order of its leaves.
    pub open spec fn leaves(self) -> Seq<Window> {
        match self.root {
            Some(r) => self.leaves_under(r),
            None => Seq::empty(),
        }
    }

    /// The tree with the focus on the leaf of `w`.
    pub open spec fn focused_on(self, w: Window) -> TreeView {
        TreeView { focused: Some(self.leaf_of(w)), ..self }
    }

    /// The tree with the leaf of `w` selected.
    pub open spec fn selecting(self, w: Window) -> TreeView {
        TreeView { selected: Some(self.leaf_of(w)), ..self }
    }

    /// Slot `la` where a mark was on `lb`, slot `lb` where it was on `la`.
    pub open spec fn mark_after_swap(mark: Option<usize>, la: usize, lb: usize) -> Option<usize> {
        if mark == Some(la) {
            Some(lb)
        } else if mark == Some(lb) {
            Some(la)
        } else {
            mark
        }
    }

    /// The tree after the windows `a` and `b` changed places. Focus and
    /// selection stay with the window that they were on.
    pub open spec fn exchanged(self, a: Window, b: Window) -> TreeView {
        let la = self.leaf_of(a);
        let lb = self.leaf_of(b);
        TreeView {
            nodes: self.nodes.insert(
                la,
                EntryView::Client { parent: self.nodes[la].parent(), window: b },
            ).insert(lb, EntryView::Client { parent: self.nodes[lb].parent(), window: a }),
            root: self.root,
            focused: Self::mark_after_swap(self.focused, la, lb),
            selected: Self::mark_after_swap(self.selected, la, lb),
        }
    }

    /// Whether taking out a leaf right after it was added gives the tree
    /// from before. It does where the new leaf did not get the focus. Where
    /// it did, the focus must go back to where it was: the focused leaf
    /// must have been the reference, and a leaf added after it as its
    /// sibling must have become the last child.
    pub open spec fn restorable(self, focus: bool, bias: InsertBias) -> bool {
        match self.reference() {
            None => true,
            Some(r) => !focus || (self.focused == Some(r) && (match self.nodes[r].parent() {
                Some(p) => !(bias is NextToRight) || self.nodes[p].children().last() == r,
                None => true,
            })),
        }
    }

    /// The node `node` and all nodes below it.
    pub open spec fn subtree(self, node: usize) -> Seq<usize> {
        nodes_below(self.nodes, self.rank(), node, self.nodes[node].children().len())
    }

    /// The tree after the reference leaf changed places with the sibling
    /// next to it: the one before it for a bias to the left, the one after
    /// it for a bias to the right. Nothing changes where there is no
    /// reference or no such sibling.
    pub open spec fn shifted(self, bias: InsertBias) -> TreeView {
        match self.reference() {
            Some(r) => match self.nodes[r].parent() {
                Some(p) => {
                    let kids = self.nodes[p].children();
                    let idx = kids.index_of(r);
                    let other = if bias is BelowLeft || bias is NextToLeft {
                        idx - 1
                    } else {
                        idx + 1
                    };
                    if 0 <= other < kids.len() {
                        reordered(self, p, idx, other)
                    } else {
                        self
                    }
                },
                None => self,
            },
            None => self,
        }
    }

    /// The same tree over another node map.
    pub open spec fn with_nodes(self, nodes: Map<usize, EntryView>) -> TreeView {
        TreeView { nodes, ..self }
    }
}

/// A numbering that is positive on every inner node with a child.
proof fn lemma_rank_positive(nodes: Map<usize, EntryView>, rank: Map<usize, nat>, i: usize)
    requires
        ranked(nodes, rank),
        nodes.dom().contains(i),
        nodes[i].children().len() > 0,
    ensures
        rank[i] > 0,
{
    let c = nodes[i].children()[0];
    assert(rank[c] < rank[i]);
}

/// In a well-formed tree a child is listed at exactly one position.
pub proof fn lemma_child_position(t: TreeView, p: usize, c: usize, idx: int)
    requires
        t.wf(),
        t.live(p),
        0 <= idx < t.nodes[p].children().len(),
        t.nodes[p].children()[idx] == c,
    ensures
        t.nodes[p].children().index_of(c) == idx,
        t.nodes[p].children().contains(c),
        t.nodes[p] is Split,
{
    let kids = t.nodes[p].children();
    assert(kids.contains(c));
    let j = kids.index_of(c);
    assert(0 <= j < kids.len() && kids[j] == c);
}

/// Adding the first leaf to an empty tree keeps the invariant.
pub proof fn lemma_add_first_wf(t: TreeView, w: Window, focus: bool, n: usize)
    requires
        t.wf(),
        t.reference() is None,
    ensures
        (TreeView {
            nodes: t.nodes.insert(n, EntryView::Client { parent: None, window: w }),
            root: Some(n),
            focused: t.focus_after_add(focus, n),
            selected: t.selected,
        }).wf(),
{
    let after = TreeView {
        nodes: t.nodes.insert(n, EntryView::Client { parent: None, window: w }),
        root: Some(n),
        focused: t.focus_after_add(focus, n),
        selected: t.selected,
    };
    assert(t.root is None);
    assert forall|i: usize| after.live(i) implies i == n by {
        assert(!t.live(i));
    }
    assert forall|i: usize| after.live(i) implies #[trigger] after.up_ok(i) by {}
    assert(after.down_links_ok());
    assert(after.splits_ok());
    assert(after.windows_unique());
    assert(ranked(after.nodes, Map::<usize, nat>::empty()));
}

/// The tree after a leaf for `w` in the vacant slot `n` was listed at `at`
/// among the children of `p`.
pub open spec fn beside(t: TreeView, w: Window, focus: bool, n: usize, p: usize, at: int) -> TreeView {
    TreeView {
        nodes: t.nodes.insert(n, EntryView::Client { parent: Some(p), window: w }).insert(
            p,
            t.nodes[p].with_children(t.nodes[p].children().insert(at, n)),
        ),
        root: t.root,
        focused: t.focus_after_add(focus, n),
        selected: t.selected,
    }
}

/// What a list holds at each position after an insertion.
proof fn lemma_insert_at(kids: Seq<usize>, at: int, n: usize, k: int)
    requires
        0 <= at <= kids.len(),
        0 <= k <= kids.len(),
    ensures
        kids.insert(at, n).len() == kids.len() + 1,
        k == at ==> kids.insert(at, n)[k] == n,
        k < at ==> kids.insert(at, n)[k] == kids[k],
        k > at ==> kids.insert(at, n)[k] == kids[k - 1],
{
    kids.insert_ensures(at, n);
}

/// A leaf added as a sibling: the links of the tree stay in order.
proof fn lemma_beside_links(t: TreeView, w: Window, focus: bool, n: usize, p: usize, at: int)
    requires
        t.wf(),
        !t.live(n),
        t.live(p),
        t.nodes[p] is Split,
        0 <= at <= t.nodes[p].children().len(),
    ensures
        beside(t, w, focus, n, p, at).root_ok(),
        beside(t, w, focus, n, p, at).up_links_ok(),
        beside(t, w, focus, n, p, at).down_links_ok(),
        beside(t, w, focus, n, p, at).nodes.dom().finite(),
{
    let kids = t.nodes[p].children();
    let placed = kids.insert(at, n);
    let after = beside(t, w, focus, n, p, at);
    lemma_insert_at(kids, at, n, at);
    assert(n != p);
    assert(after.nodes.dom() =~= t.nodes.dom().insert(n));
    assert(after.root_ok()) by {
        if t.root is None {
            assert(!t.live(p));
        }
    }
    assert forall|i: usize| after.live(i) implies #[trigger] after.up_ok(i) by {
        if i == n {
            assert(placed[at] == n);
        } else {
            assert(t.live(i));
            assert(t.up_ok(i));
            if t.nodes[i].parent() == Some(p) {
                let j = kids.index_of(i);
                assert(kids.contains(i));
                assert(0 <= j < kids.len() && kids[j] == i);
                lemma_insert_at(kids, at, n, j);
                lemma_insert_at(kids, at, n, j + 1);
                if j < at {
                    assert(placed[j] == i);
                } else {
                    assert(placed[j + 1] == i);
                }
            }
        }
    }
    assert forall|i: usize, k: int|
        after.live(i) && 0 <= k < after.nodes[i].children().len() implies after.live(
        #[trigger] after.nodes[i].children()[k],
    ) && after.nodes[after.nodes[i].children()[k]].parent() == Some(i) by {
        if i == p {
            lemma_insert_at(kids, at, n, k);
            if k != at {
                let k0 = if k < at {
                    k
                } else {
                    k - 1
                };
                assert(placed[k] == kids[k0]);
                assert(t.live(kids[k0]));
            }
        } else if i == n {
        } else {
            let c = t.nodes[i].children()[k];
            assert(t.live(c));
        }
    }
}

/// A leaf added as a sibling: the splits stay in order, and no cycle comes about.
proof fn lemma_beside_splits(t: TreeView, w: Window, focus: bool, n: usize, p: usize, at: int)
    requires
        t.wf(),
        !t.live(n),
        t.live(p),
        t.nodes[p] is Split,
        0 <= at <= t.nodes[p].children().len(),
    ensures
        beside(t, w, focus, n, p, at).splits_ok(),
        beside(t, w, focus, n, p, at).acyclic(),
{
    let kids = t.nodes[p].children();
    let placed = kids.insert(at, n);
    let after = beside(t, w, focus, n, p, at);
    lemma_insert_at(kids, at, n, at);
    assert(n != p);
    assert forall|k: int| 0 <= k < kids.len() implies #[trigger] kids[k] != n by {
        assert(t.live(kids[k]));
    }
    assert forall|i: usize| #[trigger] after.live(i) && after.nodes[i] is Split implies after.nodes[i].children().len()
        >= 2 && after.nodes[i].children().no_duplicates() by {
        if i == p {
            assert forall|a: int, b: int|
                0 <= a < placed.len() && 0 <= b < placed.len() && a != b implies placed[a]
                != placed[b] by {
                lemma_insert_at(kids, at, n, a);
                lemma_insert_at(kids, at, n, b);
            }
        } else {
            assert(t.live(i));
        }
    }
    let rank = choose|rank: Map<usize, nat>| ranked(t.nodes, rank);
    let rank2 = rank.insert(n, 0);
    lemma_rank_positive(t.nodes, rank, p);
    assert forall|i: usize, k: int|
        after.nodes.dom().contains(i) && 0 <= k < after.nodes[i].children().len() implies rank2[#[trigger] after.nodes[i].children()[k]]
        < rank2[i] by {
        if i == p {
            lemma_insert_at(kids, at, n, k);
            if k != at {
                let k0 = if k < at {
                    k
                } else {
                    k - 1
                };
                assert(placed[k] == kids[k0]);
                assert(rank[kids[k0]] < rank[p]);
            }
        } else if i == n {
        } else {
            let c = t.nodes[i].children()[k];
            assert(t.live(c));
            assert(rank[c] < rank[i]);
        }
    }
    assert(ranked(after.nodes, rank2));
}

/// A leaf added as a sibling: windows stay unique, focus and selection stay on leaves.
proof fn lemma_beside_marks(t: TreeView, w: Window, focus: bool, n: usize, p: usize, at: int)
    requires
        t.wf(),
        !t.contains_window(w),
        !t.live(n),
        t.live(p),
        t.nodes[p] is Split,
    ensures
        beside(t, w, focus, n, p, at).windows_unique(),
        beside(t, w, focus, n, p, at).marks_ok(),
{
    let after = beside(t, w, focus, n, p, at);
    assert(n != p);
    assert forall|i: usize, j: usize|
        #![trigger after.is_leaf(i), after.is_leaf(j)]
        after.is_leaf(i) && after.is_leaf(j) && after.nodes[i]->window
            == after.nodes[j]->window implies i == j by {
        if i == n && j != n {
            assert(t.is_leaf_of(j, w));
        } else if j == n && i != n {
            assert(t.is_leaf_of(i, w));
        } else if i != n && j != n {
            assert(t.is_leaf(i) && t.is_leaf(j));
        }
    }
    if t.focused is Some {
        assert(t.is_leaf(t.focused->0));
    }
    if t.selected is Some {
        assert(t.is_leaf(t.selected->0));
    }
}

/// Adding a leaf as a sibling among the children of an inner node keeps
/// the invariant.
pub proof fn lemma_add_beside_wf(t: TreeView, w: Window, focus: bool, n: usize, p: usize, at: int)
    requires
        t.wf(),
        !t.contains_window(w),
        !t.live(n),
        t.live(p),
        t.nodes[p] is Split,
        0 <= at <= t.nodes[p].children().len(),
    ensures
        beside(t, w, focus, n, p, at).wf(),
{
    lemma_beside_links(t, w, focus, n, p, at);
    lemma_beside_splits(t, w, focus, n, p, at);
    lemma_beside_marks(t, w, focus, n, p, at);
}

/// The two children of a split that wraps `r` together with the new leaf `n`.
pub open spec fn pair_of(left: bool, n: usize, r: usize) -> Seq<usize> {
    if left {
        seq![n, r]
    } else {
        seq![r, n]
    }
}

/// The tree after the leaf `r`, child number `idx` of `p`, was replaced
/// there by a new split in slot `s` that holds `r` and a new leaf for `w`
/// in slot `n`.
pub open spec fn wrapped_under(
    t: TreeView,
    w: Window,
    focus: bool,
    split: SplitDirection,
    left: bool,
    n: usize,
    s: usize,
    r: usize,
    p: usize,
    idx: int,
) -> TreeView {
    TreeView {
        nodes: t.nodes.insert(n, EntryView::Client { parent: Some(s), window: w }).insert(
            s,
            EntryView::Split { parent: Some(p), direction: split, children: pair_of(left, n, r) },
        ).insert(r, t.nodes[r].with_parent(Some(s))).insert(
            p,
            t.nodes[p].with_children(t.nodes[p].children().update(idx, s)),
        ),
        root: t.root,
        focused: t.focus_after_add(focus, n),
        selected: t.selected,
    }
}

/// The tree after the root leaf `r` was put, with a new leaf for `w` in
/// slot `n`, under a new root split in slot `s`.
pub open spec fn wrapped_root(
    t: TreeView,
    w: Window,
    focus: bool,
    split: SplitDirection,
    left: bool,
    n: usize,
    s: usize,
    r: usize,
) -> TreeView {
    TreeView {
        nodes: t.nodes.insert(n, EntryView::Client { parent: Some(s), window: w }).insert(
            s,
            EntryView::Split { parent: None, direction: split, children: pair_of(left, n, r) },
        ).insert(r, t.nodes[r].with_parent(Some(s))),
        root: Some(s),
        focused: t.focus_after_add(focus, n),
        selected: t.selected,
    }
}

/// What the wrapping lemmas ask of their arguments.
pub open spec fn wrap_ready(t: TreeView, w: Window, n: usize, s: usize, r: usize) -> bool {
    &&& t.wf()
    &&& !t.contains_window(w)
    &&& !t.live(n)
    &&& !t.live(s)
    &&& n != s
    &&& t.is_leaf(r)
}

/// A leaf wrapped under its parent: the links of the tree stay in order.
proof fn lemma_wrapped_under_links(
    t: TreeView,
    w: Window,
    focus: bool,
    split: SplitDirection,
    left: bool,
    n: usize,
    s: usize,
    r: usize,
    p: usize,
    idx: int,
)
    requires
        wrap_ready(t, w, n, s, r),
        t.nodes[r].parent() == Some(p),
        0 <= idx < t.nodes[p].children().len(),
        t.nodes[p].children()[idx] == r,
    ensures
        wrapped_under(t, w, focus, split, left, n, s, r, p, idx).nodes.dom().finite(),
        wrapped_under(t, w, focus, split, left, n, s, r, p, idx).root_ok(),
        wrapped_under(t, w, focus, split, left, n, s, r, p, idx).up_links_ok(),
        wrapped_under(t, w, focus, split, left, n, s, r, p, idx).down_links_ok(),
{
    let kids = t.nodes[p].children();
    let kids2 = kids.update(idx, s);
    let pair = pair_of(left, n, r);
    let after = wrapped_under(t, w, focus, split, left, n, s, r, p, idx);
    assert(t.up_ok(r));
    assert(t.live(p) && t.nodes[p] is Split);
    assert(after.nodes.dom() =~= t.nodes.dom().insert(n).insert(s));
    assert(pair.contains(n) && pair.contains(r)) by {
        if left {
            assert(pair[0] == n && pair[1] == r);
        } else {
            assert(pair[0] == r && pair[1] == n);
        }
    }
    assert(after.root_ok()) by {
        if t.root is None {
            assert(!t.live(p));
        }
    }
    assert forall|i: usize| after.live(i) implies #[trigger] after.up_ok(i) by {
        if i == n {
        } else if i == s {
            assert(kids2[idx] == s);
        } else if i == r {
        } else {
            assert(t.live(i));
            assert(t.up_ok(i));
            if t.nodes[i].parent() == Some(p) {
                assert(kids.contains(i));
                let j = kids.index_of(i);
                assert(0 <= j < kids.len() && kids[j] == i);
                assert(kids2[j] == i);
            }
        }
    }
    assert forall|i: usize, k: int|
        after.live(i) && 0 <= k < after.nodes[i].children().len() implies after.live(
        #[trigger] after.nodes[i].children()[k],
    ) && after.nodes[after.nodes[i].children()[k]].parent() == Some(i) by {
        if i == p {
            if k != idx {
                assert(kids2[k] == kids[k]);
                assert(t.live(kids[k]));
                assert(kids[k] != kids[idx]);
            }
        } else if i == s {
        } else if i == n || i == r {
        } else {
            let c = t.nodes[i].children()[k];
            assert(t.live(c));
        }
    }
}

/// A leaf wrapped under its parent: the splits stay in order, and no cycle comes about.
proof fn lemma_wrapped_under_splits(
    t: TreeView,
    w: Window,
    focus: bool,
    split: SplitDirection,
    left: bool,
    n: usize,
    s: usize,
    r: usize,
    p: usize,
    idx: int,
)
    requires
        wrap_ready(t, w, n, s, r),
        t.nodes[r].parent() == Some(p),
        0 <= idx < t.nodes[p].children().len(),
        t.nodes[p].children()[idx] == r,
    ensures
        wrapped_under(t, w, focus, split, left, n, s, r, p, idx).splits_ok(),
        wrapped_under(t, w, focus, split, left, n, s, r, p, idx).acyclic(),
{
    let kids = t.nodes[p].children();
    let kids2 = kids.update(idx, s);
    let after = wrapped_under(t, w, focus, split, left, n, s, r, p, idx);
    assert(t.up_ok(r));
    assert forall|k: int| 0 <= k < kids.len() implies #[trigger] kids[k] != s by {
        assert(t.live(kids[k]));
    }
    assert forall|i: usize| #[trigger] after.live(i) && after.nodes[i] is Split implies after.nodes[i].children().len()
        >= 2 && after.nodes[i].children().no_duplicates() by {
        if i == p {
            assert(t.live(p));
        } else if i == s {
        } else {
            assert(t.live(i));
        }
    }
    let rank = choose|rank: Map<usize, nat>| ranked(t.nodes, rank);
    let rank2 = Map::<usize, nat>::new(
        |i: usize| true,
        |i: usize|
            if i == n {
                0nat
            } else if i == s {
                2 * rank[r] + 1
            } else {
                2 * rank[i]
            },
    );
    assert(rank[r] < rank[p]);
    assert forall|i: usize, k: int|
        after.nodes.dom().contains(i) && 0 <= k < after.nodes[i].children().len() implies rank2[#[trigger] after.nodes[i].children()[k]]
        < rank2[i] by {
        if i == p {
            if k != idx {
                assert(kids2[k] == kids[k]);
                assert(t.live(kids[k]));
                assert(rank[kids[k]] < rank[p]);
            }
        } else if i == s {
        } else if i == n || i == r {
        } else {
            let c = t.nodes[i].children()[k];
            assert(t.live(c));
            assert(rank[c] < rank[i]);
        }
    }
    assert(ranked(after.nodes, rank2));
}

/// A wrapped leaf: windows stay unique, focus and selection stay on leaves.
proof fn lemma_wrapped_marks(t: TreeView, after: TreeView, w: Window, focus: bool, n: usize, s: usize, r: usize)
    requires
        wrap_ready(t, w, n, s, r),
        after.focused == t.focus_after_add(focus, n),
        after.selected == t.selected,
        after.root is Some,
        after.nodes.dom() == t.nodes.dom().insert(n).insert(s),
        after.nodes[n] == (EntryView::Client { parent: Some(s), window: w }),
        after.nodes[s] is Split,
        forall|i: usize| #[trigger]
            t.is_leaf(i) ==> after.nodes[i] is Client && after.nodes[i]->window
                == t.nodes[i]->window,
        forall|i: usize| #[trigger] t.live(i) && t.nodes[i] is Split ==> after.nodes[i] is Split,
    ensures
        after.windows_unique(),
        after.marks_ok(),
{
    assert forall|i: usize, j: usize|
        #![trigger after.is_leaf(i), after.is_leaf(j)]
        after.is_leaf(i) && after.is_leaf(j) && after.nodes[i]->window
            == after.nodes[j]->window implies i == j by {
        if i != n {
            assert(t.live(i));
            assert(t.is_leaf(i));
        }
        if j != n {
            assert(t.live(j));
            assert(t.is_leaf(j));
        }
        if i == n && j != n {
            assert(t.is_leaf_of(j, w));
        } else if j == n && i != n {
            assert(t.is_leaf_of(i, w));
        }
    }
    if t.focused is Some {
        assert(t.is_leaf(t.focused->0));
    }
    if t.selected is Some {
        assert(t.is_leaf(t.selected->0));
    }
}

/// Wrapping a leaf that has a parent keeps the invariant.
pub proof fn lemma_wrapped_under_wf(
    t: TreeView,
    w: Window,
    focus: bool,
    split: SplitDirection,
    left: bool,
    n: usize,
    s: usize,
    r: usize,
    p: usize,
    idx: int,
)
    requires
        wrap_ready(t, w, n, s, r),
        t.nodes[r].parent() == Some(p),
        0 <= idx < t.nodes[p].children().len(),
        t.nodes[p].children()[idx] == r,
    ensures
        wrapped_under(t, w, focus, split, left, n, s, r, p, idx).wf(),
{
    let after = wrapped_under(t, w, focus, split, left, n, s, r, p, idx);
    lemma_wrapped_under_links(t, w, focus, split, left, n, s, r, p, idx);
    lemma_wrapped_under_splits(t, w, focus, split, left, n, s, r, p, idx);
    assert(t.up_ok(r));
    assert(after.nodes.dom() =~= t.nodes.dom().insert(n).insert(s));
    assert(t.live(t.root->0)) by {
        if t.root is None {
            assert(!t.live(r));
        }
    }
    lemma_wrapped_marks(t, after, w, focus, n, s, r);
}

/// Wrapping the root leaf keeps the invariant.
pub proof fn lemma_wrapped_root_wf(
    t: TreeView,
    w: Window,
    focus: bool,
    split: SplitDirection,
    left: bool,
    n: usize,
    s: usize,
    r: usize,
)
    requires
        wrap_ready(t, w, n, s, r),
        t.nodes[r].parent() is None,
    ensures
        wrapped_root(t, w, focus, split, left, n, s, r).wf(),
{
    let pair = pair_of(left, n, r);
    let after = wrapped_root(t, w, focus, split, left, n, s, r);
    assert(t.up_ok(r));
    assert(after.nodes.dom() =~= t.nodes.dom().insert(n).insert(s));
    assert(pair.contains(n) && pair.contains(r)) by {
        if left {
            assert(pair[0] == n && pair[1] == r);
        } else {
            assert(pair[0] == r && pair[1] == n);
        }
    }
    assert forall|i: usize| after.live(i) implies #[trigger] after.up_ok(i) by {
        if i == n || i == s || i == r {
        } else {
            assert(t.live(i));
            assert(t.up_ok(i));
        }
    }
    assert forall|i: usize, k: int|
        after.live(i) && 0 <= k < after.nodes[i].children().len() implies after.live(
        #[trigger] after.nodes[i].children()[k],
    ) && after.nodes[after.nodes[i].children()[k]].parent() == Some(i) by {
        if i == s || i == n || i == r {
        } else {
            let c = t.nodes[i].children()[k];
            assert(t.live(c));
        }
    }
    assert forall|i: usize| #[trigger] after.live(i) && after.nodes[i] is Split implies after.nodes[i].children().len()
        >= 2 && after.nodes[i].children().no_duplicates() by {
        if i != s {
            assert(t.live(i));
        }
    }
    let rank = choose|rank: Map<usize, nat>| ranked(t.nodes, rank);
    let rank2 = rank.insert(n, 0).insert(s, rank[r] + 1);
    assert forall|i: usize, k: int|
        after.nodes.dom().contains(i) && 0 <= k < after.nodes[i].children().len() implies rank2[#[trigger] after.nodes[i].children()[k]]
        < rank2[i] by {
        if i == s || i == n || i == r {
        } else {
            let c = t.nodes[i].children()[k];
            assert(t.live(c));
            assert(rank[c] < rank[i]);
        }
    }
    assert(ranked(after.nodes, rank2));
    lemma_wrapped_marks(t, after, w, focus, n, s, r);
}

/// The first or the last item of a list.
pub open spec fn edge(kids: Seq<usize>, first: bool) -> usize {
    if first {
        kids[0]
    } else {
        kids[kids.len() - 1]
    }
}

/// The leaf reached from `node` by going down to the first child, or to
/// the last child, at every inner node.
pub open spec fn edge_leaf(
    nodes: Map<usize, EntryView>,
    rank: Map<usize, nat>,
    node: usize,
    first: bool,
) -> usize
    decreases rank[node],
{
    let kids = nodes[node].children();
    if nodes.dom().contains(node) && kids.len() > 0 && rank[edge(kids, first)] < rank[node] {
        edge_leaf(nodes, rank, edge(kids, first), first)
    } else {
        node
    }
}

/// The windows of the leaves below the first `k` children of `node`, from
/// first to last; for a leaf, its own window.
pub open spec fn leaves_below(
    nodes: Map<usize, EntryView>,
    rank: Map<usize, nat>,
    node: usize,
    k: nat,
) -> Seq<Window>
    decreases rank[node], k,
{
    match nodes[node] {
        EntryView::Client { window, .. } => seq![window],
        EntryView::Split { children, .. } => {
            if k == 0 || k > children.len() {
                Seq::empty()
            } else {
                let child = children[k - 1];
                let before = leaves_below(nodes, rank, node, (k - 1) as nat);
                if rank[child] < rank[node] {
                    before + leaves_below(nodes, rank, child, nodes[child].children().len())
                } else {
                    before
                }
            }
        },
    }
}

/// The node `node` and the nodes below its first `k` children: the node
/// first, then, child by child, each child with all that is below it.
pub open spec fn nodes_below(
    nodes: Map<usize, EntryView>,
    rank: Map<usize, nat>,
    node: usize,
    k: nat,
) -> Seq<usize>
    decreases rank[node], k,
{
    let children = nodes[node].children();
    if k == 0 || k > children.len() {
        seq![node]
    } else {
        let child = children[k - 1];
        let before = nodes_below(nodes, rank, node, (k - 1) as nat);
        if rank[child] < rank[node] {
            before + nodes_below(nodes, rank, child, nodes[child].children().len())
        } else {
            before
        }
    }
}

/// A list with the items at two positions exchanged.
pub open spec fn transposed(kids: Seq<usize>, i: int, j: int) -> Seq<usize> {
    kids.update(i, kids[j]).update(j, kids[i])
}

/// The tree after children `i` and `j` of `p` changed places.
pub open spec fn reordered(t: TreeView, p: usize, i: int, j: int) -> TreeView {
    t.with_nodes(t.nodes.insert(p, t.nodes[p].with_children(transposed(t.nodes[p].children(), i, j))))
}

/// Letting two children of a node change places keeps the invariant.
pub proof fn lemma_reordered_wf(t: TreeView, p: usize, i: int, j: int)
    requires
        t.wf(),
        t.live(p),
        0 <= i < t.nodes[p].children().len(),
        0 <= j < t.nodes[p].children().len(),
    ensures
        reordered(t, p, i, j).wf(),
{
    let kids = t.nodes[p].children();
    let kids2 = transposed(kids, i, j);
    let after = reordered(t, p, i, j);
    assert(after.nodes.dom() =~= t.nodes.dom());
    assert forall|k: int| 0 <= k < kids2.len() implies #[trigger] kids2[k] == kids[if k == i {
        j
    } else if k == j {
        i
    } else {
        k
    }] by {}
    assert(after.root_ok()) by {
        if t.root is None {
            assert(!t.live(p));
        }
    }
    assert forall|x: usize| after.live(x) implies #[trigger] after.up_ok(x) by {
        assert(t.up_ok(x));
        if t.nodes[x].parent() == Some(p) {
            let k = kids.index_of(x);
            assert(kids.contains(x));
            assert(kids[k] == x);
            let k2 = if k == i {
                j
            } else if k == j {
                i
            } else {
                k
            };
            assert(kids2[k2] == x);
        }
    }
    assert forall|x: usize, k: int|
        after.live(x) && 0 <= k < after.nodes[x].children().len() implies after.live(
        #[trigger] after.nodes[x].children()[k],
    ) && after.nodes[after.nodes[x].children()[k]].parent() == Some(x) by {
        if x == p {
            let k0 = if k == i {
                j
            } else if k == j {
                i
            } else {
                k
            };
            assert(kids2[k] == kids[k0]);
            assert(t.live(kids[k0]));
        } else {
            assert(t.live(t.nodes[x].children()[k]));
        }
    }
    assert forall|x: usize| #[trigger] after.live(x) && after.nodes[x] is Split implies after.nodes[x].children().len()
        >= 2 && after.nodes[x].children().no_duplicates() by {
        assert(t.live(x));
        if x == p {
            assert forall|a: int, b: int|
                0 <= a < kids2.len() && 0 <= b < kids2.len() && a != b implies kids2[a]
                != kids2[b] by {
                let a0 = if a == i {
                    j
                } else if a == j {
                    i
                } else {
                    a
                };
                let b0 = if b == i {
                    j
                } else if b == j {
                    i
                } else {
                    b
                };
                assert(kids2[a] == kids[a0] && kids2[b] == kids[b0]);
            }
        }
    }
    assert forall|x: usize, y: usize|
        #![trigger after.is_leaf(x), after.is_leaf(y)]
        after.is_leaf(x) && after.is_leaf(y) && after.nodes[x]->window
            == after.nodes[y]->window implies x == y by {
        assert(t.is_leaf(x) && t.is_leaf(y));
    }
    assert(after.marks_ok()) by {
        if t.focused is Some {
            assert(t.is_leaf(t.focused->0));
        }
        if t.selected is Some {
            assert(t.is_leaf(t.selected->0));
        }
    }
    let rank = t.rank();
    assert forall|x: usize, k: int|
        after.nodes.dom().contains(x) && 0 <= k < after.nodes[x].children().len() implies rank[#[trigger] after.nodes[x].children()[k]]
        < rank[x] by {
        if x == p {
            let k0 = if k == i {
                j
            } else if k == j {
                i
            } else {
                k
            };
            assert(kids2[k] == kids[k0]);
            assert(rank[kids[k0]] < rank[p]);
        } else {
            assert(rank[t.nodes[x].children()[k]] < rank[x]);
        }
    }
    assert(ranked(after.nodes, rank));
}

/// The tree after the leaf `l`, child number `idx` of `p`, was taken out
/// and `p` keeps at least two children.
pub open spec fn pruned(
    t: TreeView,
    l: usize,
    p: usize,
    idx: int,
    focused: Option<usize>,
    selected: Option<usize>,
) -> TreeView {
    TreeView {
        nodes: t.nodes.remove(l).insert(
            p,
            t.nodes[p].with_children(t.nodes[p].children().remove(idx)),
        ),
        root: t.root,
        focused,
        selected,
    }
}

/// The tree after the leaf `l` was taken out of the root split `p`, whose
/// only other child `o` becomes the root.
pub open spec fn collapsed_root(
    t: TreeView,
    l: usize,
    p: usize,
    o: usize,
    focused: Option<usize>,
    selected: Option<usize>,
) -> TreeView {
    TreeView {
        nodes: t.nodes.remove(l).remove(p).insert(o, t.nodes[o].with_parent(None)),
        root: Some(o),
        focused,
        selected,
    }
}

/// The tree after the leaf `l` was taken out of the split `p`, child
/// number `gidx` of `g`, and the only other child `o` of `p` took the
/// place of `p` there.
pub open spec fn collapsed_under(
    t: TreeView,
    l: usize,
    p: usize,
    o: usize,
    g: usize,
    gidx: int,
    focused: Option<usize>,
    selected: Option<usize>,
) -> TreeView {
    TreeView {
        nodes: t.nodes.remove(l).remove(p).insert(o, t.nodes[o].with_parent(Some(g))).insert(
            g,
            t.nodes[g].with_children(t.nodes[g].children().update(gidx, o)),
        ),
        root: t.root,
        focused,
        selected,
    }
}

/// What the removal lemmas ask of the leaf that goes and of the marks
/// that the tree gets.
pub open spec fn removal_ready(
    t: TreeView,
    l: usize,
    p: usize,
    focused: Option<usize>,
    selected: Option<usize>,
) -> bool {
    &&& t.wf()
    &&& t.is_leaf(l)
    &&& t.nodes[l].parent() == Some(p)
    &&& focused matches Some(f) && t.is_leaf(f) && f != l
    &&& selected matches Some(s) ==> t.is_leaf(s) && s != l
}

/// A leaf taken out: windows stay unique, focus and selection stay on leaves.
proof fn lemma_removed_marks(t: TreeView, after: TreeView, l: usize, p: usize)
    requires
        removal_ready(t, l, p, after.focused, after.selected),
        after.root is Some,
        forall|i: usize| #[trigger] after.live(i) ==> t.live(i) && i != l,
        forall|i: usize| #[trigger]
            t.is_leaf(i) && i != l ==> after.live(i) && after.nodes[i] is Client
                && after.nodes[i]->window == t.nodes[i]->window,
        forall|i: usize| #[trigger]
            after.live(i) && t.nodes[i] is Split ==> after.nodes[i] is Split,
    ensures
        after.windows_unique(),
        after.marks_ok(),
{
    assert forall|i: usize, j: usize|
        #![trigger after.is_leaf(i), after.is_leaf(j)]
        after.is_leaf(i) && after.is_leaf(j) && after.nodes[i]->window
            == after.nodes[j]->window implies i == j by {
        assert(after.live(i) && after.live(j));
        assert(t.is_leaf(i) && t.is_leaf(j));
    }
    assert(t.is_leaf(after.focused->0));
    if after.selected is Some {
        assert(t.is_leaf(after.selected->0));
    }
}

/// A leaf taken out of a split that keeps two children: links and splits stay in order.
proof fn lemma_pruned_links(
    t: TreeView,
    l: usize,
    p: usize,
    idx: int,
    focused: Option<usize>,
    selected: Option<usize>,
)
    requires
        removal_ready(t, l, p, focused, selected),
        0 <= idx < t.nodes[p].children().len(),
        t.nodes[p].children()[idx] == l,
        t.nodes[p].children().len() >= 3,
    ensures
        pruned(t, l, p, idx, focused, selected).nodes.dom().finite(),
        pruned(t, l, p, idx, focused, selected).root_ok(),
        pruned(t, l, p, idx, focused, selected).up_links_ok(),
        pruned(t, l, p, idx, focused, selected).down_links_ok(),
        pruned(t, l, p, idx, focused, selected).splits_ok(),
        pruned(t, l, p, idx, focused, selected).acyclic(),
{
    let kids = t.nodes[p].children();
    let rest = kids.remove(idx);
    let after = pruned(t, l, p, idx, focused, selected);
    kids.remove_ensures(idx);
    assert(t.up_ok(l));
    assert(after.nodes.dom() =~= t.nodes.dom().remove(l));
    assert forall|k: int| 0 <= k < rest.len() implies #[trigger] rest[k] == kids[if k < idx {
        k
    } else {
        k + 1
    }] by {}
    assert(after.root_ok()) by {
        if t.root is None {
            assert(!t.live(p));
        }
    }
    assert forall|i: usize| after.live(i) implies #[trigger] after.up_ok(i) by {
        assert(t.live(i));
        assert(t.up_ok(i));
        if t.nodes[i].parent() == Some(p) {
            assert(kids.contains(i));
            let j = kids.index_of(i);
            assert(0 <= j < kids.len() && kids[j] == i);
            if j < idx {
                assert(rest[j] == i);
            } else {
                assert(rest[j - 1] == i);
            }
        }
    }
    assert forall|i: usize, k: int|
        after.live(i) && 0 <= k < after.nodes[i].children().len() implies after.live(
        #[trigger] after.nodes[i].children()[k],
    ) && after.nodes[after.nodes[i].children()[k]].parent() == Some(i) by {
        if i == p {
            let k0 = if k < idx {
                k
            } else {
                k + 1
            };
            assert(rest[k] == kids[k0]);
            assert(t.live(kids[k0]));
            assert(kids[k0] != kids[idx]);
        } else {
            let c = t.nodes[i].children()[k];
            assert(t.live(c));
        }
    }
    assert forall|i: usize| #[trigger] after.live(i) && after.nodes[i] is Split implies after.nodes[i].children().len()
        >= 2 && after.nodes[i].children().no_duplicates() by {
        assert(t.live(i));
        if i == p {
            assert forall|a: int, b: int|
                0 <= a < rest.len() && 0 <= b < rest.len() && a != b implies rest[a]
                != rest[b] by {
                let a0 = if a < idx {
                    a
                } else {
                    a + 1
                };
                let b0 = if b < idx {
                    b
                } else {
                    b + 1
                };
                assert(rest[a] == kids[a0] && rest[b] == kids[b0]);
            }
        }
    }
    let rank = choose|rank: Map<usize, nat>| ranked(t.nodes, rank);
    assert forall|i: usize, k: int|
        after.nodes.dom().contains(i) && 0 <= k < after.nodes[i].children().len() implies rank[#[trigger] after.nodes[i].children()[k]]
        < rank[i] by {
        if i == p {
            let k0 = if k < idx {
                k
            } else {
                k + 1
            };
            assert(rest[k] == kids[k0]);
            assert(rank[kids[k0]] < rank[p]);
        } else {
            let c = t.nodes[i].children()[k];
            assert(rank[c] < rank[i]);
        }
    }
    assert(ranked(after.nodes, rank));
}

/// Taking a leaf out of a split that keeps two children or more keeps the
/// invariant.
pub proof fn lemma_pruned_wf(
    t: TreeView,
    l: usize,
    p: usize,
    idx: int,
    focused: Option<usize>,
    selected: Option<usize>,
)
    requires
        removal_ready(t, l, p, focused, selected),
        0 <= idx < t.nodes[p].children().len(),
        t.nodes[p].children()[idx] == l,
        t.nodes[p].children().len() >= 3,
    ensures
        pruned(t, l, p, idx, focused, selected).wf(),
{
    let after = pruned(t, l, p, idx, focused, selected);
    lemma_pruned_links(t, l, p, idx, focused, selected);
    assert(t.up_ok(l));
    assert(after.nodes.dom() =~= t.nodes.dom().remove(l));
    assert(after.root is Some) by {
        if t.root is None {
            assert(!t.live(l));
        }
    }
    lemma_removed_marks(t, after, l, p);
}

/// What the collapsing lemmas ask: `p` has exactly the children `l` and `o`.
pub open spec fn collapse_ready(t: TreeView, l: usize, p: usize, o: usize) -> bool {
    &&& t.nodes[p].children().len() == 2
    &&& t.nodes[p].children().contains(l)
    &&& t.nodes[p].children().contains(o)
    &&& o != l
}

/// What holds of a split with exactly two children, one of them a leaf.
proof fn lemma_collapse_facts(t: TreeView, l: usize, p: usize, o: usize)
    requires
        t.wf(),
        t.is_leaf(l),
        t.nodes[l].parent() == Some(p),
        collapse_ready(t, l, p, o),
    ensures
        t.live(p),
        t.nodes[p] is Split,
        t.live(o),
        t.nodes[o].parent() == Some(p),
        o != p,
        l != p,
        forall|c: usize| t.nodes[p].children().contains(c) ==> c == l || c == o,
        forall|i: usize, k: int|
            t.live(i) && i != p && 0 <= k < t.nodes[i].children().len() ==> #[trigger] t.nodes[i].children()[k]
                != l && t.nodes[i].children()[k] != o,
{
    let kids = t.nodes[p].children();
    assert(t.up_ok(l));
    let a = kids.index_of(l);
    let b = kids.index_of(o);
    assert(kids[a] == l && kids[b] == o);
    assert(t.live(kids[b]));
    assert forall|c: usize| kids.contains(c) implies c == l || c == o by {
        let j = kids.index_of(c);
        assert(kids[j] == c);
        assert(j == a || j == b);
    }
    let rank = choose|rank: Map<usize, nat>| ranked(t.nodes, rank);
    assert(rank[kids[b]] < rank[p]);
    assert forall|i: usize, k: int|
        t.live(i) && i != p && 0 <= k < t.nodes[i].children().len() implies #[trigger] t.nodes[i].children()[k]
        != l && t.nodes[i].children()[k] != o by {
        let c = t.nodes[i].children()[k];
        assert(t.nodes[c].parent() == Some(i));
    }
}

/// Taking a leaf out of a root split with two children, whose other child
/// becomes the root, keeps the invariant.
pub proof fn lemma_collapsed_root_wf(
    t: TreeView,
    l: usize,
    p: usize,
    o: usize,
    focused: Option<usize>,
    selected: Option<usize>,
)
    requires
        removal_ready(t, l, p, focused, selected),
        collapse_ready(t, l, p, o),
        t.nodes[p].parent() is None,
    ensures
        collapsed_root(t, l, p, o, focused, selected).wf(),
{
    let after = collapsed_root(t, l, p, o, focused, selected);
    lemma_collapse_facts(t, l, p, o);
    assert(after.nodes.dom() =~= t.nodes.dom().remove(l).remove(p));
    assert forall|i: usize| after.live(i) implies #[trigger] after.up_ok(i) by {
        if i != o {
            assert(t.live(i));
            assert(t.up_ok(i));
            assert(t.up_ok(p));
            if t.nodes[i].parent() == Some(p) {
                assert(t.nodes[p].children().contains(i));
            }
        }
    }
    assert forall|i: usize, k: int|
        after.live(i) && 0 <= k < after.nodes[i].children().len() implies after.live(
        #[trigger] after.nodes[i].children()[k],
    ) && after.nodes[after.nodes[i].children()[k]].parent() == Some(i) by {
        let c = t.nodes[i].children()[k];
        assert(t.live(i) && i != p);
        assert(t.live(c));
        assert(c != l && c != o);
        assert(t.nodes[c].parent() == Some(i));
    }
    assert forall|i: usize| #[trigger] after.live(i) && after.nodes[i] is Split implies after.nodes[i].children().len()
        >= 2 && after.nodes[i].children().no_duplicates() by {
        assert(t.live(i));
    }
    let rank = choose|rank: Map<usize, nat>| ranked(t.nodes, rank);
    assert forall|i: usize, k: int|
        after.nodes.dom().contains(i) && 0 <= k < after.nodes[i].children().len() implies rank[#[trigger] after.nodes[i].children()[k]]
        < rank[i] by {
        let c = t.nodes[i].children()[k];
        assert(t.live(i));
        assert(rank[c] < rank[i]);
    }
    assert(ranked(after.nodes, rank));
    lemma_removed_marks(t, after, l, p);
}

/// A split replaced by its only child: the links of the tree stay in order.
proof fn lemma_collapsed_under_links(
    t: TreeView,
    l: usize,
    p: usize,
    o: usize,
    g: usize,
    gidx: int,
    focused: Option<usize>,
    selected: Option<usize>,
)
    requires
        removal_ready(t, l, p, focused, selected),
        collapse_ready(t, l, p, o),
        t.nodes[p].parent() == Some(g),
        0 <= gidx < t.nodes[g].children().len(),
        t.nodes[g].children()[gidx] == p,
    ensures
        collapsed_under(t, l, p, o, g, gidx, focused, selected).nodes.dom().finite(),
        collapsed_under(t, l, p, o, g, gidx, focused, selected).root_ok(),
        collapsed_under(t, l, p, o, g, gidx, focused, selected).up_links_ok(),
        collapsed_under(t, l, p, o, g, gidx, focused, selected).down_links_ok(),
{
    let after = collapsed_under(t, l, p, o, g, gidx, focused, selected);
    let gk = t.nodes[g].children();
    let gk2 = gk.update(gidx, o);
    lemma_collapse_facts(t, l, p, o);
    assert(t.up_ok(p));
    let rank = choose|rank: Map<usize, nat>| ranked(t.nodes, rank);
    assert(rank[gk[gidx]] < rank[g]);
    assert(g != p && g != l);
    assert(g != o) by {
        if g == o {
            let b = t.nodes[p].children().index_of(o);
            assert(rank[t.nodes[p].children()[b]] < rank[p]);
        }
    }
    assert(after.nodes.dom() =~= t.nodes.dom().remove(l).remove(p));
    assert(after.root_ok()) by {
        if t.root is None {
            assert(!t.live(g));
        }
        assert(t.up_ok(o));
    }
    assert forall|i: usize| after.live(i) implies #[trigger] after.up_ok(i) by {
        if i == o {
            assert(gk2[gidx] == o);
        } else {
            assert(t.live(i));
            assert(t.up_ok(i));
            if t.nodes[i].parent() is Some {
                let q = t.nodes[i].parent()->0;
                if q == p {
                    assert(t.nodes[p].children().contains(i));
                } else if q == g {
                    assert(gk.contains(i));
                    let j = gk.index_of(i);
                    assert(0 <= j < gk.len() && gk[j] == i);
                    assert(gk2[j] == i);
                }
            }
        }
    }
    assert forall|i: usize, k: int|
        after.live(i) && 0 <= k < after.nodes[i].children().len() implies after.live(
        #[trigger] after.nodes[i].children()[k],
    ) && after.nodes[after.nodes[i].children()[k]].parent() == Some(i) by {
        assert(t.live(i) && i != p);
        if i == g {
            if k != gidx {
                let c = gk[k];
                assert(gk2[k] == c);
                assert(t.live(c));
                assert(c != gk[gidx]);
                assert(c != l && c != o);
                assert(t.nodes[c].parent() == Some(g));
            }
        } else {
            let c = t.nodes[i].children()[k];
            assert(t.live(c));
            assert(c != l && c != o);
            assert(t.nodes[c].parent() == Some(i));
            assert(c != p);
        }
    }
}

/// A split replaced by its only child: the splits stay in order, and no cycle comes about.
proof fn lemma_collapsed_under_splits(
    t: TreeView,
    l: usize,
    p: usize,
    o: usize,
    g: usize,
    gidx: int,
    focused: Option<usize>,
    selected: Option<usize>,
)
    requires
        removal_ready(t, l, p, focused, selected),
        collapse_ready(t, l, p, o),
        t.nodes[p].parent() == Some(g),
        0 <= gidx < t.nodes[g].children().len(),
        t.nodes[g].children()[gidx] == p,
    ensures
        collapsed_under(t, l, p, o, g, gidx, focused, selected).splits_ok(),
        collapsed_under(t, l, p, o, g, gidx, focused, selected).acyclic(),
{
    let after = collapsed_under(t, l, p, o, g, gidx, focused, selected);
    let gk = t.nodes[g].children();
    let gk2 = gk.update(gidx, o);
    lemma_collapse_facts(t, l, p, o);
    assert(t.up_ok(p));
    let rank = choose|rank: Map<usize, nat>| ranked(t.nodes, rank);
    assert(rank[gk[gidx]] < rank[g]);
    let b = t.nodes[p].children().index_of(o);
    assert(rank[t.nodes[p].children()[b]] < rank[p]);
    assert(g != p && g != l && g != o);
    assert forall|k: int| 0 <= k < gk.len() implies #[trigger] gk[k] != o by {}
    assert forall|i: usize| #[trigger] after.live(i) && after.nodes[i] is Split implies after.nodes[i].children().len()
        >= 2 && after.nodes[i].children().no_duplicates() by {
        assert(t.live(i));
    }
    assert forall|i: usize, k: int|
        after.nodes.dom().contains(i) && 0 <= k < after.nodes[i].children().len() implies rank[#[trigger] after.nodes[i].children()[k]]
        < rank[i] by {
        assert(t.live(i));
        if i == g {
            if k != gidx {
                assert(gk2[k] == gk[k]);
                assert(rank[gk[k]] < rank[g]);
            }
        } else {
            let c = t.nodes[i].children()[k];
            assert(rank[c] < rank[i]);
        }
    }
    assert(ranked(after.nodes, rank));
}

/// Taking a leaf out of an inner split with two children, whose other
/// child takes the split's place, keeps the invariant.
pub proof fn lemma_collapsed_under_wf(
    t: TreeView,
    l: usize,
    p: usize,
    o: usize,
    g: usize,
    gidx: int,
    focused: Option<usize>,
    selected: Option<usize>,
)
    requires
        removal_ready(t, l, p, focused, selected),
        collapse_ready(t, l, p, o),
        t.nodes[p].parent() == Some(g),
        0 <= gidx < t.nodes[g].children().len(),
        t.nodes[g].children()[gidx] == p,
    ensures
        collapsed_under(t, l, p, o, g, gidx, focused, selected).wf(),
{
    let after = collapsed_under(t, l, p, o, g, gidx, focused, selected);
    lemma_collapsed_under_links(t, l, p, o, g, gidx, focused, selected);
    lemma_collapsed_under_splits(t, l, p, o, g, gidx, focused, selected);
    lemma_collapse_facts(t, l, p, o);
    assert(t.up_ok(p));
    assert(after.nodes.dom() =~= t.nodes.dom().remove(l).remove(p));
    assert(after.root is Some) by {
        if t.root is None {
            assert(!t.live(l));
        }
    }
    lemma_removed_marks(t, after, l, p);
}

/// The slot of the leaf of a window is the one slot that holds it.
pub proof fn lemma_leaf_of(t: TreeView, slot: usize, w: Window)
    requires
        t.wf(),
        t.is_leaf_of(slot, w),
    ensures
        t.leaf_of(w) == slot,
        t.contains_window(w),
{
    let chosen = t.leaf_of(w);
    assert(t.is_leaf_of(chosen, w));
    assert(t.is_leaf(slot) && t.is_leaf(chosen));
}

/// No slot of the set has a number above `bound`.
pub open spec fn bounded(dom: Set<usize>, rank: Map<usize, nat>, bound: nat) -> bool {
    forall|i: usize| dom.contains(i) ==> rank[i] <= bound
}

/// The numbers that a numbering gives to a finite set of slots have a bound.
proof fn lemma_rank_bound(dom: Set<usize>, rank: Map<usize, nat>)
    requires
        dom.finite(),
    ensures
        exists|bound: nat| bounded(dom, rank, bound),
    decreases dom.len(),
{
    if dom.len() == 0 {
        assert(dom =~= Set::<usize>::empty());
        assert(bounded(dom, rank, 0));
    } else {
        let x = dom.choose();
        lemma_rank_bound(dom.remove(x), rank);
        let b = choose|bound: nat| bounded(dom.remove(x), rank, bound);
        let bound = if rank[x] > b {
            rank[x]
        } else {
            b
        };
        assert forall|i: usize| dom.contains(i) implies rank[i] <= bound by {
            if i != x {
                assert(dom.remove(x).contains(i));
            }
        }
        assert(bounded(dom, rank, bound));
    }
}

/// The numbering of a well-formed tree has a bound on its nodes.
pub proof fn lemma_rank_bound_of(t: TreeView)
    requires
        t.wf(),
    ensures
        exists|bound: nat| bounded(t.nodes.dom(), t.rank(), bound),
{
    lemma_rank_bound(t.nodes.dom(), t.rank());
}

/// Beside a root that is a leaf, every node would have ancestors without end.
proof fn lemma_ancestor_chain(t: TreeView, i: usize, k: nat)
    requires
        t.wf(),
        t.live(i),
        t.root matches Some(r) && t.nodes[r] is Client && i != r,
    ensures
        exists|a: usize| t.live(a) && Some(a) != t.root && t.rank()[a] >= t.rank()[i] + k,
    decreases k,
{
    if k == 0 {
        assert(t.live(i) && Some(i) != t.root && t.rank()[i] >= t.rank()[i] + 0);
    } else {
        lemma_ancestor_chain(t, i, (k - 1) as nat);
        let a = choose|a: usize|
            t.live(a) && Some(a) != t.root && t.rank()[a] >= t.rank()[i] + (k - 1);
        assert(t.up_ok(a));
        let p = t.nodes[a].parent()->0;
        let kids = t.nodes[p].children();
        let j = kids.index_of(a);
        assert(kids[j] == a);
        assert(t.rank()[kids[j]] < t.rank()[p]);
        assert(t.live(p) && Some(p) != t.root && t.rank()[p] >= t.rank()[i] + k);
    }
}

/// A tree whose root is a leaf has no other node.
pub proof fn lemma_lone_leaf(t: TreeView, l: usize)
    requires
        t.wf(),
        t.is_leaf(l),
        t.nodes[l].parent() is None,
    ensures
        forall|i: usize| t.live(i) ==> i == l,
        forall|w: Window| t.contains_window(w) ==> w == t.nodes[l]->window,
{
    assert(t.up_ok(l));
    lemma_rank_bound(t.nodes.dom(), t.rank());
    let bound = choose|bound: nat| bounded(t.nodes.dom(), t.rank(), bound);
    assert forall|i: usize| t.live(i) implies i == l by {
        if i != l {
            lemma_ancestor_chain(t, i, bound + 1);
            let a = choose|a: usize|
                t.live(a) && Some(a) != t.root && t.rank()[a] >= t.rank()[i] + (bound + 1);
            assert(t.rank()[a] <= bound);
        }
    }
    assert forall|w: Window| t.contains_window(w) implies w == t.nodes[l]->window by {
        let i = choose|i: usize| t.is_leaf_of(i, w);
        assert(t.live(i));
    }
}

/// What the leaves of a tree stand for after one leaf was added: the
/// windows from before and the new one.
pub proof fn lemma_windows_grown(t: TreeView, after: TreeView, n: usize, w: Window)
    requires
        !t.live(n),
        after.is_leaf_of(n, w),
        forall|i: usize| #[trigger] after.is_leaf(i) ==> i == n || t.is_leaf(i),
        forall|i: usize| #[trigger]
            t.is_leaf(i) ==> after.is_leaf(i) && after.nodes[i]->window == t.nodes[i]->window,
    ensures
        after.windows() == t.windows().insert(w),
{
    assert forall|x: Window| after.contains_window(x) <==> t.contains_window(x) || x == w by {
        if after.contains_window(x) {
            let i = choose|i: usize| after.is_leaf_of(i, x);
            assert(after.is_leaf(i));
            if i != n {
                assert(t.is_leaf(i));
                assert(t.is_leaf_of(i, x));
            }
        }
        if t.contains_window(x) {
            let i = choose|i: usize| t.is_leaf_of(i, x);
            assert(t.is_leaf(i));
            assert(after.is_leaf_of(i, x));
        }
        if x == w {
            assert(after.is_leaf_of(n, x));
        }
    }
    assert(after.windows() =~= t.windows().insert(w));
}

/// What the leaves of a tree stand for after the leaf `l` was taken out:
/// the windows from before without that of `l`.
pub proof fn lemma_windows_shrunk(t: TreeView, after: TreeView, l: usize)
    requires
        t.windows_unique(),
        t.is_leaf(l),
        forall|i: usize| #[trigger] after.is_leaf(i) ==> i != l && t.is_leaf(i),
        forall|i: usize| #[trigger]
            t.is_leaf(i) && i != l ==> after.is_leaf(i) && after.nodes[i]->window
                == t.nodes[i]->window,
    ensures
        after.windows() == t.windows().remove(t.nodes[l]->window),
{
    let w = t.nodes[l]->window;
    assert forall|x: Window| after.contains_window(x) <==> t.contains_window(x) && x != w by {
        if after.contains_window(x) {
            let i = choose|i: usize| after.is_leaf_of(i, x);
            assert(after.is_leaf(i));
            assert(t.is_leaf(i));
            assert(t.is_leaf_of(i, x));
            assert(t.is_leaf(i) && t.is_leaf(l));
        }
        if t.contains_window(x) && x != w {
            let i = choose|i: usize| t.is_leaf_of(i, x);
            assert(t.is_leaf(i));
            assert(after.is_leaf_of(i, x));
        }
    }
    assert(after.windows() =~= t.windows().remove(w));
}

/// The windows of a tree after `add`: those from before and the added
/// one. The tree is not empty afterwards.
pub proof fn lemma_add_windows(
    t: TreeView,
    after: TreeView,
    w: Window,
    focus: bool,
    bias: InsertBias,
    split: SplitDirection,
)
    requires
        t.wf(),
        t.add_result(after, w, focus, bias, split),
    ensures
        after.windows() == t.windows().insert(w),
        after.root is Some,
{
    if t.contains_window(w) {
        assert(t.windows().insert(w) =~= t.windows());
        let i = choose|i: usize| t.is_leaf_of(i, w);
        if t.root is None {
            assert(!t.live(i));
        }
    } else {
        let (n, s) = choose|n: usize, s: usize|
            !t.live(n) && (t.wraps(bias) ==> !t.live(s) && n != s) && after == #[trigger] t.added(
                w,
                focus,
                bias,
                split,
                n,
                s,
            );
        match t.reference() {
            None => {
                lemma_windows_grown(t, after, n, w);
            },
            Some(r) => {
                assert(t.is_leaf(r));
                assert(t.up_ok(r));
                if t.root is None {
                    assert(!t.live(r));
                }
                lemma_windows_grown(t, after, n, w);
            },
        }
    }
}

/// The windows of a tree after `remove`: those from before without the
/// removed one.
pub proof fn lemma_remove_windows(t: TreeView, after: TreeView, w: Window)
    requires
        t.wf(),
        t.remove_result(after, w),
    ensures
        after.windows() == t.windows().remove(w),
{
    if !t.contains_window(w) {
        assert(t.windows().remove(w) =~= t.windows());
    } else {
        let l = t.leaf_of(w);
        assert(t.is_leaf_of(l, w));
        assert(t.up_ok(l));
        match t.nodes[l].parent() {
            None => {
                lemma_lone_leaf(t, l);
                assert forall|x: Window| !after.contains_window(x) by {
                    if after.contains_window(x) {
                        let i = choose|i: usize| after.is_leaf_of(i, x);
                        assert(after.live(i));
                    }
                }
                assert(after.windows() =~= t.windows().remove(w));
            },
            Some(p) => {
                let kids = t.nodes[p].children();
                let idx = kids.index_of(l);
                assert(kids[idx] == l);
                if kids.len() < 3 {
                    let o = kids[1 - idx];
                    assert(t.live(kids[1 - idx]));
                    assert(t.up_ok(p));
                }
                lemma_windows_shrunk(t, after, l);
            },
        }
    }
}

/// The tree that `add` makes of a well-formed tree is well-formed.
pub proof fn lemma_added_wf(
    t: TreeView,
    w: Window,
    focus: bool,
    bias: InsertBias,
    split: SplitDirection,
    n: usize,
    s: usize,
)
    requires
        t.wf(),
        !t.contains_window(w),
        !t.live(n),
        t.wraps(bias) ==> !t.live(s) && n != s,
    ensures
        t.added(w, focus, bias, split, n, s).wf(),
        t.added(w, focus, bias, split, n, s).is_leaf_of(n, w),
{
    let left = bias is BelowLeft || bias is NextToLeft;
    match t.reference() {
        None => {
            lemma_add_first_wf(t, w, focus, n);
        },
        Some(r) => {
            assert(t.is_leaf(r));
            assert(t.up_ok(r));
            match t.nodes[r].parent() {
                Some(p) => {
                    let kids = t.nodes[p].children();
                    let idx = kids.index_of(r);
                    assert(kids[idx] == r);
                    if bias is NextToLeft || bias is NextToRight {
                        lemma_add_beside_wf(
                            t,
                            w,
                            focus,
                            n,
                            p,
                            if left {
                                idx
                            } else {
                                idx + 1
                            },
                        );
                        assert(n != p);
                    } else {
                        lemma_wrapped_under_wf(t, w, focus, split, left, n, s, r, p, idx);
                    }
                },
                None => {
                    lemma_wrapped_root_wf(t, w, focus, split, left, n, s, r);
                },
            }
        },
    }
}

/// In a list without repetitions an item stands where `index_of` says.
proof fn lemma_index_of(kids: Seq<usize>, x: usize, at: int)
    requires
        kids.no_duplicates(),
        0 <= at < kids.len(),
        kids[at] == x,
    ensures
        kids.index_of(x) == at,
{
    assert(kids.contains(x));
    let j = kids.index_of(x);
    assert(0 <= j < kids.len() && kids[j] == x);
}

/// Taking a leaf out again that was added as a sibling.
proof fn lemma_undo_beside(t: TreeView, w: Window, focus: bool, n: usize, p: usize, at: int, r: usize)
    requires
        !t.live(n),
        t.live(p),
        t.live(r),
        t.nodes[r] is Client,
        t.nodes[p] is Split,
        n != p,
        t.nodes[p].children().len() >= 2,
        0 <= at <= t.nodes[p].children().len(),
        t.nodes[p].children().insert(at, n).no_duplicates(),
        t.selected != Some(n),
        t.focused is Some,
        t.focused != Some(n),
        focus ==> t.focused == Some(r) && ((at < t.nodes[p].children().len()
            && t.nodes[p].children()[at] == r) || (at == t.nodes[p].children().len()
            && t.nodes[p].children()[at - 1] == r)),
    ensures
        beside(t, w, focus, n, p, at).removed(n, t.selected) == t,
{
    let kids = t.nodes[p].children();
    let grown = beside(t, w, focus, n, p, at);
    let placed = kids.insert(at, n);
    kids.insert_ensures(at, n);
    assert(grown.nodes[p].children() == placed);
    assert(placed[at] == n);
    lemma_index_of(placed, n, at);
    assert(placed.remove(at) =~= kids);
    let back = grown.removed(n, t.selected);
    assert(back.nodes =~= t.nodes);
    if focus {
        if at < kids.len() {
            assert(placed[at + 1] == r);
        } else {
            assert(placed[at - 1] == r);
        }
        assert(grown.nodes[r] is Client);
    }
    assert(back =~= t);
}

/// Taking a leaf out again that was added in a new split under `p`.
proof fn lemma_undo_wrapped_under(
    t: TreeView,
    w: Window,
    focus: bool,
    split: SplitDirection,
    left: bool,
    n: usize,
    s: usize,
    r: usize,
    p: usize,
    idx: int,
)
    requires
        !t.live(n),
        !t.live(s),
        n != s,
        t.live(p),
        t.live(r),
        r != p,
        t.nodes[r] is Client,
        t.nodes[r].parent() == Some(p),
        t.nodes[p] is Split,
        0 <= idx < t.nodes[p].children().len(),
        t.nodes[p].children()[idx] == r,
        t.nodes[p].children().update(idx, s).no_duplicates(),
        t.selected != Some(n),
        t.focused is Some,
        t.focused != Some(n),
        focus ==> t.focused == Some(r),
    ensures
        wrapped_under(t, w, focus, split, left, n, s, r, p, idx).removed(n, t.selected) == t,
{
    let kids = t.nodes[p].children();
    let grown = wrapped_under(t, w, focus, split, left, n, s, r, p, idx);
    let pair = pair_of(left, n, r);
    let kids2 = kids.update(idx, s);
    assert(grown.nodes[s].children() == pair);
    assert(grown.nodes[p].children() == kids2);
    let nidx = if left {
        0int
    } else {
        1int
    };
    assert(pair[nidx] == n && pair[1 - nidx] == r);
    assert(pair.no_duplicates());
    lemma_index_of(pair, n, nidx);
    assert(kids2[idx] == s);
    lemma_index_of(kids2, s, idx);
    assert(kids2.update(idx, r) =~= kids);
    let back = grown.removed(n, t.selected);
    assert(back.nodes =~= t.nodes);
    assert(grown.nodes[r] is Client);
    assert(back =~= t);
}

/// Taking a leaf out again that was added in a new root split.
proof fn lemma_undo_wrapped_root(
    t: TreeView,
    w: Window,
    focus: bool,
    split: SplitDirection,
    left: bool,
    n: usize,
    s: usize,
    r: usize,
)
    requires
        !t.live(n),
        !t.live(s),
        n != s,
        t.live(r),
        t.nodes[r] is Client,
        t.nodes[r].parent() is None,
        t.root == Some(r),
        t.selected != Some(n),
        t.focused is Some,
        t.focused != Some(n),
        focus ==> t.focused == Some(r),
    ensures
        wrapped_root(t, w, focus, split, left, n, s, r).removed(n, t.selected) == t,
{
    let grown = wrapped_root(t, w, focus, split, left, n, s, r);
    let pair = pair_of(left, n, r);
    assert(grown.nodes[s].children() == pair);
    let nidx = if left {
        0int
    } else {
        1int
    };
    assert(pair[nidx] == n && pair[1 - nidx] == r);
    assert(pair.no_duplicates());
    lemma_index_of(pair, n, nidx);
    let back = grown.removed(n, t.selected);
    assert(back.nodes =~= t.nodes);
    assert(grown.nodes[r] is Client);
    assert(back =~= t);
}

/// Taking out the leaf that was just added gives the tree from before,
/// where the focus finds its way back.
pub proof fn lemma_added_removed(
    t: TreeView,
    w: Window,
    focus: bool,
    bias: InsertBias,
    split: SplitDirection,
    n: usize,
    s: usize,
)
    requires
        t.wf(),
        !t.contains_window(w),
        !t.live(n),
        t.wraps(bias) ==> !t.live(s) && n != s,
        t.restorable(focus, bias),
    ensures
        ({
            let grown = t.added(w, focus, bias, split, n, s);
            grown.removed(n, grown.selected_without(n)) == t
        }),
{
    let left = bias is BelowLeft || bias is NextToLeft;
    let grown = t.added(w, focus, bias, split, n, s);
    lemma_added_wf(t, w, focus, bias, split, n, s);
    if t.selected is Some {
        assert(t.is_leaf(t.selected->0));
    }
    match t.reference() {
        None => {
            assert(t.root is None);
            assert(t.nodes =~= Map::<usize, EntryView>::empty()) by {
                assert forall|i: usize| !t.nodes.dom().contains(i) by {
                    assert(!t.live(i));
                }
            }
            assert(grown.removed(n, grown.selected_without(n)) =~= t);
        },
        Some(r) => {
            assert(t.is_leaf(r));
            assert(t.up_ok(r));
            assert(t.focused is Some);
            assert(t.is_leaf(t.focused->0));
            match t.nodes[r].parent() {
                Some(p) => {
                    let kids = t.nodes[p].children();
                    let idx = kids.index_of(r);
                    assert(kids[idx] == r);
                    assert(grown.live(p));
                    if bias is NextToLeft || bias is NextToRight {
                        let at = if left {
                            idx
                        } else {
                            idx + 1
                        };
                        assert(grown.nodes[p].children() == kids.insert(at, n));
                        if focus && !left {
                            assert(kids[kids.len() - 1] == r);
                            lemma_child_position(t, p, r, kids.len() - 1);
                        }
                        lemma_undo_beside(t, w, focus, n, p, at, r);
                    } else {
                        assert(grown.nodes[p].children() == kids.update(idx, s));
                        lemma_undo_wrapped_under(t, w, focus, split, left, n, s, r, p, idx);
                    }
                },
                None => {
                    lemma_undo_wrapped_root(t, w, focus, split, left, n, s, r);
                },
            }
        },
    }
}

/// `add` and then `remove` of the same window leave a tree as it was,
/// where the window was new to it and the focus finds its way back.
pub proof fn lemma_add_remove_roundtrip(
    t: TreeView,
    grown: TreeView,
    back: TreeView,
    w: Window,
    focus: bool,
    bias: InsertBias,
    split: SplitDirection,
)
    requires
        t.wf(),
        !t.contains_window(w),
        t.restorable(focus, bias),
        t.add_result(grown, w, focus, bias, split),
        grown.remove_result(back, w),
    ensures
        back == t,
{
    let (n, s) = choose|n: usize, s: usize|
        !t.live(n) && (t.wraps(bias) ==> !t.live(s) && n != s) && grown == #[trigger] t.added(
            w,
            focus,
            bias,
            split,
            n,
            s,
        );
    lemma_added_wf(t, w, focus, bias, split, n, s);
    lemma_leaf_of(grown, n, w);
    lemma_added_removed(t, w, focus, bias, split, n, s);
}

/// Trees over the same nodes have leaves for the same windows.
pub proof fn lemma_same_windows(t: TreeView, after: TreeView)
    requires
        after.nodes == t.nodes,
    ensures
        after.windows() == t.windows(),
        forall|w: Window| after.contains_window(w) == t.contains_window(w),
{
    assert forall|w: Window| after.contains_window(w) == t.contains_window(w) by {
        if after.contains_window(w) {
            let i = choose|i: usize| after.is_leaf_of(i, w);
            assert(t.is_leaf_of(i, w));
        }
        if t.contains_window(w) {
            let i = choose|i: usize| t.is_leaf_of(i, w);
            assert(after.is_leaf_of(i, w));
        }
    }
    assert(after.windows() =~= t.windows());
}

/// Exchanging two different windows changes the tree.
pub proof fn lemma_exchanged_differs(t: TreeView, a: Window, b: Window)
    requires
        t.wf(),
        t.contains_window(a),
        t.contains_window(b),
        a != b,
    ensures
        t.exchanged(a, b) != t,
{
    let la = t.leaf_of(a);
    assert(t.is_leaf_of(la, a));
    assert(t.exchanged(a, b).nodes[la] != t.nodes[la]);
}

/// Moving focus or selection to other leaves keeps the invariant.
pub proof fn lemma_marks_moved(t: TreeView, after: TreeView)
    requires
        t.wf(),
        after.nodes == t.nodes,
        after.root == t.root,
        after.marks_ok(),
    ensures
        after.wf(),
{
    assert forall|i: usize| after.live(i) implies #[trigger] after.up_ok(i) by {
        assert(t.up_ok(i));
    }
    assert forall|i: usize, j: usize|
        #![trigger after.is_leaf(i), after.is_leaf(j)]
        after.is_leaf(i) && after.is_leaf(j) && after.nodes[i]->window
            == after.nodes[j]->window implies i == j by {
        assert(t.is_leaf(i) && t.is_leaf(j));
    }
    assert(ranked(after.nodes, t.rank()));
    assert(after.root_ok()) by {
        if t.root is None {
            assert forall|i: usize| !after.live(i) by {
                assert(!t.live(i));
            }
        }
    }
    assert(after.down_links_ok()) by {
        assert forall|i: usize, k: int|
            after.live(i) && 0 <= k < after.nodes[i].children().len() implies after.live(
            #[trigger] after.nodes[i].children()[k],
        ) && after.nodes[after.nodes[i].children()[k]].parent() == Some(i) by {
            assert(t.live(t.nodes[i].children()[k]));
        }
    }
    assert(after.splits_ok()) by {
        assert forall|i: usize| #[trigger] after.live(i) && after.nodes[i] is Split implies after.nodes[i].children().len()
            >= 2 && after.nodes[i].children().no_duplicates() by {
            assert(t.live(i));
        }
    }
}

/// Exchanging the windows of two leaves keeps the invariant.
pub proof fn lemma_exchanged_wf(t: TreeView, a: Window, b: Window)
    requires
        t.wf(),
        t.contains_window(a),
        t.contains_window(b),
        a != b,
    ensures
        t.exchanged(a, b).wf(),
        t.exchanged(a, b).windows() == t.windows(),
{
    let la = t.leaf_of(a);
    let lb = t.leaf_of(b);
    let after = t.exchanged(a, b);
    assert(t.is_leaf_of(la, a) && t.is_leaf_of(lb, b));
    assert(after.nodes.dom() =~= t.nodes.dom());
    assert forall|i: usize| after.live(i) implies #[trigger] after.up_ok(i) by {
        assert(t.live(i));
        assert(t.up_ok(i));
    }
    assert forall|i: usize, k: int|
        after.live(i) && 0 <= k < after.nodes[i].children().len() implies after.live(
        #[trigger] after.nodes[i].children()[k],
    ) && after.nodes[after.nodes[i].children()[k]].parent() == Some(i) by {
        let c = t.nodes[i].children()[k];
        assert(t.live(c));
    }
    assert forall|i: usize| #[trigger] after.live(i) && after.nodes[i] is Split implies after.nodes[i].children().len()
        >= 2 && after.nodes[i].children().no_duplicates() by {
        assert(t.live(i));
    }
    assert forall|i: usize, j: usize|
        #![trigger after.is_leaf(i), after.is_leaf(j)]
        after.is_leaf(i) && after.is_leaf(j) && after.nodes[i]->window
            == after.nodes[j]->window implies i == j by {
        assert(t.is_leaf(i) && t.is_leaf(j));
        assert(t.is_leaf(la) && t.is_leaf(lb));
    }
    assert(after.marks_ok()) by {
        if t.focused is Some {
            assert(t.is_leaf(t.focused->0));
        }
        if t.selected is Some {
            assert(t.is_leaf(t.selected->0));
        }
    }
    let rank = t.rank();
    assert forall|i: usize, k: int|
        after.nodes.dom().contains(i) && 0 <= k < after.nodes[i].children().len() implies rank[#[trigger] after.nodes[i].children()[k]]
        < rank[i] by {
        let c = t.nodes[i].children()[k];
        assert(rank[c] < rank[i]);
    }
    assert(ranked(after.nodes, rank));
    assert forall|w: Window| after.contains_window(w) <==> t.contains_window(w) by {
        if after.contains_window(w) {
            let i = choose|i: usize| after.is_leaf_of(i, w);
            if i == la {
                assert(t.is_leaf_of(lb, w));
            } else if i == lb {
                assert(t.is_leaf_of(la, w));
            } else {
                assert(t.is_leaf_of(i, w));
            }
        }
        if t.contains_window(w) {
            let i = choose|i: usize| t.is_leaf_of(i, w);
            if i == la {
                assert(after.is_leaf_of(lb, w));
            } else if i == lb {
                assert(after.is_leaf_of(la, w));
            } else {
                assert(after.is_leaf_of(i, w));
            }
        }
    }
    assert(after.windows() =~= t.windows());
}

/// In a list without repetitions, filtering out the item at `j` removes
/// exactly that position.
pub proof fn lemma_without_unique(t: Seq<usize>, j: int)
    requires
        t.no_duplicates(),
        0 <= j < t.len(),
    ensures
        without(t, t[j]) == t.remove(j),
    decreases t.len(),
{
    let x = t[j];
    let front = t.drop_last();
    reveal_with_fuel(Seq::filter, 2);
    if j == t.len() - 1 {
        lemma_without_absent(front, x);
        assert(t.remove(j) =~= front);
    } else {
        lemma_without_unique(front, j);
        assert(front[j] == x);
        assert(t.remove(j) =~= front.remove(j).push(t.last()));
    }
}

/// Filtering out an item that does not occur changes nothing.
pub proof fn lemma_without_absent(t: Seq<usize>, x: usize)
    requires
        !t.contains(x),
    ensures
        without(t, x) == t,
    decreases t.len(),
{
    reveal_with_fuel(Seq::filter, 2);
    if t.len() > 0 {
        let front = t.drop_last();
        assert forall|k: int| 0 <= k < front.len() implies front[k] != x by {
            assert(t[k] == front[k]);
            assert(t.contains(t[k]));
        }
        lemma_without_absent(front, x);
        assert(t.contains(t.last()));
        assert(front.push(t.last()) =~= t);
    } else {
        assert(without(t, x) =~= t);
    }
}

} // verus!
