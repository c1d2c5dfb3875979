//! The order of the leaves of a subset tree: every window of the tree is
//! listed, and listed once.

use vstd::prelude::*;

use crate::wm::subset::{EntryView, Window};
use crate::wm::tree_model::{bounded, leaves_below, lemma_lone_leaf, ranked, TreeView};

verus! {

/// `x` is below `a`, under one of its first `k` children.
pub open spec fn within(
    nodes: Map<usize, EntryView>,
    rank: Map<usize, nat>,
    a: usize,
    k: nat,
    x: usize,
) -> bool
    decreases rank[a], k,
{
    let kids = nodes[a].children();
    if k == 0 || k > kids.len() {
        false
    } else {
        let c = kids[k - 1];
        within(nodes, rank, a, (k - 1) as nat, x) || (rank[c] < rank[a] && (c == x || within(
            nodes,
            rank,
            c,
            nodes[c].children().len(),
            x,
        )))
    }
}

impl TreeView {
    /// `x` is below `a`.
    pub open spec fn is_below(self, a: usize, x: usize) -> bool {
        within(self.nodes, self.rank(), a, self.nodes[a].children().len(), x)
    }

    /// `x` is `a` or below it.
    pub open spec fn is_in(self, a: usize, x: usize) -> bool {
        x == a || self.is_below(a, x)
    }
}

/// A node below one of the first `k` children is below one of the first
/// `m`, where `m` is not less than `k`.
proof fn lemma_within_grows(t: TreeView, a: usize, k: nat, m: nat, x: usize)
    requires
        k <= m <= t.nodes[a].children().len(),
        within(t.nodes, t.rank(), a, k, x),
    ensures
        within(t.nodes, t.rank(), a, m, x),
    decreases m,
{
    if k < m {
        lemma_within_grows(t, a, k, (m - 1) as nat, x);
    }
}

/// Every child of a node is below it.
proof fn lemma_child_within(t: TreeView, a: usize, j: int)
    requires
        t.wf(),
        t.live(a),
        0 <= j < t.nodes[a].children().len(),
    ensures
        t.is_below(a, t.nodes[a].children()[j]),
{
    let kids = t.nodes[a].children();
    assert(t.rank()[kids[j]] < t.rank()[a]);
    assert(within(t.nodes, t.rank(), a, (j + 1) as nat, kids[j]));
    lemma_within_grows(t, a, (j + 1) as nat, kids.len(), kids[j]);
}

/// What is below a node is a node of the tree, lower in the numbering.
proof fn lemma_within_live(t: TreeView, a: usize, k: nat, x: usize)
    requires
        t.wf(),
        t.live(a),
        within(t.nodes, t.rank(), a, k, x),
    ensures
        t.live(x),
        t.rank()[x] < t.rank()[a],
    decreases t.rank()[a], k,
{
    let kids = t.nodes[a].children();
    let c = kids[k - 1];
    assert(t.live(kids[k - 1]));
    if within(t.nodes, t.rank(), a, (k - 1) as nat, x) {
        lemma_within_live(t, a, (k - 1) as nat, x);
    } else if c != x {
        lemma_within_live(t, c, t.nodes[c].children().len(), x);
    }
}

/// The parent of what is below a node is that node or below it.
proof fn lemma_step_up(t: TreeView, a: usize, k: nat, x: usize)
    requires
        t.wf(),
        t.live(a),
        within(t.nodes, t.rank(), a, k, x),
    ensures
        t.nodes[x].parent() matches Some(q) && (q == a || within(t.nodes, t.rank(), a, k, q)),
    decreases t.rank()[a], k,
{
    let kids = t.nodes[a].children();
    let c = kids[k - 1];
    assert(t.live(kids[k - 1]));
    assert(t.nodes[kids[k - 1]].parent() == Some(a));
    if within(t.nodes, t.rank(), a, (k - 1) as nat, x) {
        lemma_step_up(t, a, (k - 1) as nat, x);
    } else if c != x {
        lemma_step_up(t, c, t.nodes[c].children().len(), x);
    }
}

/// A child of what is below a node is below that node.
proof fn lemma_step_down(t: TreeView, a: usize, k: nat, q: usize, x: usize)
    requires
        t.wf(),
        t.live(a),
        t.live(x),
        t.nodes[x].parent() == Some(q),
        within(t.nodes, t.rank(), a, k, q),
    ensures
        within(t.nodes, t.rank(), a, k, x),
    decreases t.rank()[a], k,
{
    let kids = t.nodes[a].children();
    let c = kids[k - 1];
    assert(t.live(kids[k - 1]));
    if within(t.nodes, t.rank(), a, (k - 1) as nat, q) {
        lemma_step_down(t, a, (k - 1) as nat, q, x);
    } else if c == q {
        assert(t.up_ok(x));
        let qk = t.nodes[q].children();
        let j = qk.index_of(x);
        assert(qk[j] == x);
        lemma_child_within(t, q, j);
    } else {
        lemma_step_down(t, c, t.nodes[c].children().len(), q, x);
    }
}

/// Every node of a tree is the root or below it.
proof fn lemma_reach(t: TreeView, x: usize, bound: nat)
    requires
        t.wf(),
        t.live(x),
        bounded(t.nodes.dom(), t.rank(), bound),
    ensures
        t.root matches Some(r) && t.is_in(r, x),
    decreases bound - t.rank()[x],
{
    assert(t.up_ok(x));
    match t.nodes[x].parent() {
        None => {},
        Some(q) => {
            let qk = t.nodes[q].children();
            let j = qk.index_of(x);
            assert(qk[j] == x);
            assert(t.rank()[qk[j]] < t.rank()[q]);
            lemma_reach(t, q, bound);
            let r = t.root->0;
            if q == r {
                lemma_child_within(t, r, j);
            } else {
                lemma_step_down(t, r, t.nodes[r].children().len(), q, x);
            }
        },
    }
}

/// Of two nodes that a node is in, one is in the other.
proof fn lemma_chain(t: TreeView, c1: usize, c2: usize, x: usize, bound: nat)
    requires
        t.wf(),
        t.live(c1),
        t.live(c2),
        t.live(x),
        t.is_in(c1, x),
        t.is_in(c2, x),
        bounded(t.nodes.dom(), t.rank(), bound),
    ensures
        t.is_in(c1, c2) || t.is_in(c2, c1),
    decreases bound - t.rank()[x],
{
    if x != c1 && x != c2 {
        lemma_step_up(t, c1, t.nodes[c1].children().len(), x);
        lemma_step_up(t, c2, t.nodes[c2].children().len(), x);
        let q = t.nodes[x].parent()->0;
        lemma_within_live(t, c1, t.nodes[c1].children().len(), x);
        assert(t.up_ok(x));
        let qk = t.nodes[q].children();
        let j = qk.index_of(x);
        assert(qk[j] == x);
        assert(t.rank()[qk[j]] < t.rank()[q]);
        lemma_chain(t, c1, c2, q, bound);
    }
}

/// No node is in two children of one node.
proof fn lemma_children_apart(t: TreeView, a: usize, i: int, j: int, x: usize)
    requires
        t.wf(),
        t.live(a),
        t.live(x),
        0 <= i < t.nodes[a].children().len(),
        0 <= j < t.nodes[a].children().len(),
        i != j,
        t.is_in(t.nodes[a].children()[i], x),
    ensures
        !t.is_in(t.nodes[a].children()[j], x),
{
    let kids = t.nodes[a].children();
    let ci = kids[i];
    let cj = kids[j];
    assert(t.live(kids[i]) && t.live(kids[j]));
    assert(t.nodes[kids[i]].parent() == Some(a) && t.nodes[kids[j]].parent() == Some(a));
    assert(t.rank()[kids[i]] < t.rank()[a] && t.rank()[kids[j]] < t.rank()[a]);
    assert(ci != cj);
    if t.is_in(cj, x) {
        crate::wm::tree_model::lemma_rank_bound_of(t);
        let bound = choose|bound: nat| bounded(t.nodes.dom(), t.rank(), bound);
        lemma_chain(t, ci, cj, x, bound);
        if t.is_in(ci, cj) {
            lemma_step_up(t, ci, t.nodes[ci].children().len(), cj);
            if a != ci {
                lemma_within_live(t, ci, t.nodes[ci].children().len(), a);
            }
        } else {
            lemma_step_up(t, cj, t.nodes[cj].children().len(), ci);
            if a != cj {
                lemma_within_live(t, cj, t.nodes[cj].children().len(), a);
            }
        }
    }
}

/// What `within` says, child by child.
proof fn lemma_within_child(t: TreeView, a: usize, k: nat, x: usize)
    requires
        within(t.nodes, t.rank(), a, k, x),
    ensures
        exists|j: int|
            0 <= j < k && j < t.nodes[a].children().len() && t.is_in(
                #[trigger] t.nodes[a].children()[j],
                x,
            ),
    decreases k,
{
    let kids = t.nodes[a].children();
    if within(t.nodes, t.rank(), a, (k - 1) as nat, x) {
        lemma_within_child(t, a, (k - 1) as nat, x);
    } else {
        assert(t.is_in(kids[k - 1], x));
    }
}

/// The windows listed for a node are those of the leaves in it.
pub open spec fn lists(t: TreeView, s: Seq<Window>, a: usize, k: nat) -> bool {
    forall|w: Window|
        s.contains(w) <==> exists|l: usize| #[trigger]
            t.is_leaf_of(l, w) && (if t.nodes[a] is Client {
                l == a
            } else {
                within(t.nodes, t.rank(), a, k, l)
            })
}

/// The leaves below the first `k` children of a node are listed, each
/// once, by `leaves_below`.
proof fn lemma_leaves_below(t: TreeView, a: usize, k: nat)
    requires
        t.wf(),
        t.live(a),
        k <= t.nodes[a].children().len(),
    ensures
        lists(t, leaves_below(t.nodes, t.rank(), a, k), a, k),
        leaves_below(t.nodes, t.rank(), a, k).no_duplicates(),
    decreases t.rank()[a], k,
{
    let rank = t.rank();
    let s = leaves_below(t.nodes, rank, a, k);
    if t.nodes[a] is Client {
        let w0 = t.nodes[a]->window;
        assert(s =~= seq![w0]);
        assert forall|w: Window|
            s.contains(w) <==> exists|l: usize| #[trigger] t.is_leaf_of(l, w) && l == a by {
            if s.contains(w) {
                let i = s.index_of(w);
                assert(s[i] == w);
                assert(t.is_leaf_of(a, w));
            }
            if exists|l: usize| #[trigger] t.is_leaf_of(l, w) && l == a {
                assert(s[0] == w);
            }
        }
    } else if k == 0 {
        assert(s =~= Seq::<Window>::empty());
    } else {
        let kids = t.nodes[a].children();
        let c = kids[k - 1];
        assert(t.live(kids[k - 1]));
        assert(rank[kids[k - 1]] < rank[a]);
        let s1 = leaves_below(t.nodes, rank, a, (k - 1) as nat);
        let s2 = leaves_below(t.nodes, rank, c, t.nodes[c].children().len());
        lemma_leaves_below(t, a, (k - 1) as nat);
        lemma_leaves_below(t, c, t.nodes[c].children().len());
        assert(s == s1 + s2);
        assert forall|w: Window|
            s.contains(w) <==> exists|l: usize| #[trigger]
                t.is_leaf_of(l, w) && within(t.nodes, rank, a, k, l) by {
            if s.contains(w) {
                let i = s.index_of(w);
                assert(s[i] == w);
                if i < s1.len() {
                    assert(s1[i] == w);
                    assert(s1.contains(w));
                    let l = choose|l: usize| #[trigger]
                        t.is_leaf_of(l, w) && within(t.nodes, rank, a, (k - 1) as nat, l);
                    assert(t.is_leaf_of(l, w) && within(t.nodes, rank, a, k, l));
                } else {
                    assert(s2[i - s1.len()] == w);
                    assert(s2.contains(w));
                    let l = choose|l: usize| #[trigger]
                        t.is_leaf_of(l, w) && (if t.nodes[c] is Client {
                            l == c
                        } else {
                            within(t.nodes, rank, c, t.nodes[c].children().len(), l)
                        });
                    assert(t.is_leaf_of(l, w) && within(t.nodes, rank, a, k, l));
                }
            }
            if exists|l: usize| #[trigger] t.is_leaf_of(l, w) && within(t.nodes, rank, a, k, l) {
                let l = choose|l: usize| #[trigger]
                    t.is_leaf_of(l, w) && within(t.nodes, rank, a, k, l);
                if within(t.nodes, rank, a, (k - 1) as nat, l) {
                    assert(s1.contains(w));
                    let i = s1.index_of(w);
                    assert(s[i] == w);
                } else {
                    if c == l {
                        assert(t.nodes[c] is Client);
                    } else {
                        assert(within(t.nodes, rank, c, t.nodes[c].children().len(), l));
                        if t.nodes[c] is Client {
                            assert(t.nodes[c].children().len() == 0);
                        }
                    }
                    assert(s2.contains(w));
                    let i = s2.index_of(w);
                    assert(s[s1.len() + i] == w);
                }
            }
        }
        assert(s.no_duplicates()) by {
            assert forall|i: int, j: int| 0 <= i < j < s.len() implies s[i] != s[j] by {
                if j < s1.len() {
                    assert(s1[i] == s[i] && s1[j] == s[j]);
                } else if i >= s1.len() {
                    assert(s2[i - s1.len()] == s[i] && s2[j - s1.len()] == s[j]);
                } else if s[i] == s[j] {
                    let w = s[i];
                    assert(s1[i] == w && s2[j - s1.len()] == w);
                    assert(s1.contains(w) && s2.contains(w));
                    let l1 = choose|l: usize| #[trigger]
                        t.is_leaf_of(l, w) && within(t.nodes, rank, a, (k - 1) as nat, l);
                    let l2 = choose|l: usize| #[trigger]
                        t.is_leaf_of(l, w) && (if t.nodes[c] is Client {
                            l == c
                        } else {
                            within(t.nodes, rank, c, t.nodes[c].children().len(), l)
                        });
                    assert(t.is_leaf(l1) && t.is_leaf(l2));
                    assert(l1 == l2);
                    assert(t.is_in(c, l2));
                    lemma_within_child(t, a, (k - 1) as nat, l1);
                    let e = choose|e: int|
                        0 <= e < k - 1 && e < kids.len() && t.is_in(#[trigger] kids[e], l1);
                    lemma_children_apart(t, a, e, k - 1, l1);
                }
            }
        }
    }
}

/// The order of the leaves lists the windows of a tree, each once: a
/// window is listed exactly if it has a leaf in the tree.
pub proof fn lemma_leaves_list_windows(t: TreeView)
    requires
        t.wf(),
    ensures
        t.leaves().no_duplicates(),
        forall|w: Window| t.leaves().contains(w) <==> t.contains_window(w),
        t.leaves().to_set() == t.windows(),
        t.focused_window() matches Some(w) ==> t.leaves().contains(w),
        t.root is Some ==> t.leaves().len() > 0,
{
    match t.root {
        None => {
            assert forall|w: Window| !t.contains_window(w) by {
                if t.contains_window(w) {
                    let l = choose|l: usize| t.is_leaf_of(l, w);
                    assert(t.live(l));
                }
            }
        },
        Some(r) => {
            let len = t.nodes[r].children().len();
            lemma_leaves_below(t, r, len);
            crate::wm::tree_model::lemma_rank_bound_of(t);
            let bound = choose|bound: nat| bounded(t.nodes.dom(), t.rank(), bound);
            assert forall|w: Window| t.leaves().contains(w) <==> t.contains_window(w) by {
                if t.leaves().contains(w) {
                    let l = choose|l: usize| #[trigger]
                        t.is_leaf_of(l, w) && (if t.nodes[r] is Client {
                            l == r
                        } else {
                            within(t.nodes, t.rank(), r, len, l)
                        });
                    assert(t.is_leaf_of(l, w));
                }
                if t.contains_window(w) {
                    let l = choose|l: usize| t.is_leaf_of(l, w);
                    lemma_reach(t, l, bound);
                    if t.nodes[r] is Client {
                        assert(t.nodes[r].children().len() == 0);
                    } else {
                        assert(l != r);
                    }
                    assert(t.is_leaf_of(l, w));
                }
            }
            let f = t.focused->0;
            assert(t.is_leaf_of(f, t.nodes[f]->window));
            assert(t.contains_window(t.nodes[f]->window));
            assert(t.leaves().contains(t.nodes[f]->window));
        },
    }
    assert(t.leaves().to_set() =~= t.windows());
}

} // verus!
