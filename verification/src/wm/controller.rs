//! What the window manager decides when the display reports an event:
//! which client a new window becomes, and where the windows of a screen go.

use vstd::prelude::*;

use crate::wm::client::{bias_of, cleared, place_of, settled, Client, ClientProps, ClientSet, ClientSetView};
use crate::wm::config::Tag;
use crate::wm::layout::{arranged, Geometry, Layout, TilingArea};
use crate::wm::screen::{updated, CrtcChange, Screen, ScreenSet};
use crate::wm::subset::Window;
use crate::wm::tags::Tags;
use crate::wm::tagset::TagSet;
use crate::wm::window_system::WmCommand;

verus! {

/// The tags that a new client gets: those that the matching gave, if it
/// gave any; else those of the tag set on show; else the default tag.
pub open spec fn tags_for(matched: Option<(Vec<Tag>, bool)>, shown: Option<Set<Tag>>) -> Set<Tag> {
    let wanted = match matched {
        Some((tags, _)) => tags@,
        None => Seq::empty(),
    };
    let fallback = match shown {
        Some(tags) => tags,
        None => Set::empty(),
    };
    if wanted.len() > 0 {
        wanted.to_set()
    } else if fallback != Set::<Tag>::empty() {
        fallback
    } else {
        set![Tag::Work(0)]
    }
}

/// Whether a new client goes in as a slave: only where the matching says so.
pub open spec fn slave_for(matched: Option<(Vec<Tag>, bool)>) -> bool {
    match matched {
        Some((_, as_slave)) => as_slave,
        None => false,
    }
}

/// The tags of the tag set that a screen shows.
pub open spec fn shown_tags<L: Layout>(screen: Screen<L>) -> Option<Set<Tag>> {
    match screen.tag_stack@.current() {
        Some(tagset) => Some(tagset.tags@),
        None => None,
    }
}

/// Takes a window that asks to be mapped under management: `matched` is
/// what the matching of the user says of its properties. The window
/// becomes a client with the tags and in the role that `tags_for` and
/// `slave_for` name, and the screens are to be drawn anew.
pub fn map_request<L: Layout>(
    clients: &mut ClientSet,
    screens: &ScreenSet<L>,
    window: Window,
    props: ClientProps,
    matched: Option<(Vec<Tag>, bool)>,
) -> (command: WmCommand)
    requires
        old(clients).wf(),
        screens.wf(),
    ensures
        command == WmCommand::Redraw,
        final(clients).wf(),
        final(clients)@.clients.contains_key(window),
        final(clients)@.clients == old(clients)@.clients.insert(
            window,
            final(clients)@.clients[window],
        ),
        final(clients)@.clients[window].id() == window,
        final(clients)@.clients[window].properties() == props,
        final(clients)@.clients[window].tag_set() == tags_for(
            matched,
            shown_tags(screens@.current_screen()),
        ),
        settled(
            old(clients)@.order,
            final(clients)@.order,
            window,
            Some(tags_for(matched, shown_tags(screens@.current_screen()))),
            !slave_for(matched),
            bias_of(slave_for(matched)),
        ),
{
    let mut tags = Tags::new();
    let mut as_slave = false;
    if let Some((wanted, slave)) = &matched {
        as_slave = *slave;
        if wanted.len() > 0 {
            tags = Tags::from_slice(wanted.as_slice());
            proof {
                assert(wanted@.contains(wanted@[0]));
                assert(tags@.contains(wanted@[0]));
            }
        }
    }
    if tags.is_empty() {
        if let Some(tagset) = screens.tag_stack().current() {
            tags = tagset.tags.clone();
        }
    }
    if tags.is_empty() {
        tags.insert(Tag::Work(0));
        proof {
            assert(tags@ =~= set![Tag::Work(0)]);
        }
    }
    let client = Client::new(window, tags, props);
    clients.add(client, as_slave);
    WmCommand::Redraw
}

/// Takes note that a window was unmapped or destroyed: its client
/// goes, and if there was one, the screens are to be drawn anew.
pub fn unmap_notify(clients: &mut ClientSet, window: Window) -> (command: WmCommand)
    requires
        old(clients).wf(),
    ensures
        final(clients).wf(),
        command == (if old(clients)@.clients.contains_key(window) {
            WmCommand::Redraw
        } else {
            WmCommand::NoCommand
        }),
        if old(clients)@.clients.contains_key(window) {
            &&& final(clients)@.clients == old(clients)@.clients.remove(window)
            &&& cleared(old(clients)@.order, final(clients)@.order, window)
        } else {
            final(clients)@ == old(clients)@
        },
{
    if clients.remove(window) {
        WmCommand::Redraw
    } else {
        WmCommand::NoCommand
    }
}

/// The tags that the matching names for a client that exists; none where
/// it has nothing to say.
pub open spec fn wanted_tags(matched: Option<(Vec<Tag>, bool)>) -> Seq<Tag> {
    match matched {
        Some((tags, _)) => tags@,
        None => Seq::empty(),
    }
}

/// Takes note that the properties of a window changed: `matched` is what
/// the matching of the user says of the new properties. The client of
/// the window gets the new properties and the tags that the matching
/// names, if it names any; where it names tags, the screens are to be
/// drawn anew.
pub fn property_notify(
    clients: &mut ClientSet,
    window: Window,
    props: ClientProps,
    matched: Option<(Vec<Tag>, bool)>,
) -> (command: WmCommand)
    requires
        old(clients).wf(),
    ensures
        final(clients).wf(),
        command == (if old(clients)@.clients.contains_key(window) && wanted_tags(matched).len()
            > 0 {
            WmCommand::Redraw
        } else {
            WmCommand::NoCommand
        }),
        if old(clients)@.clients.contains_key(window) {
            &&& final(clients)@.clients.contains_key(window)
            &&& final(clients)@.clients == old(clients)@.clients.insert(
                window,
                final(clients)@.clients[window],
            )
            &&& final(clients)@.clients[window].properties() == props
            &&& final(clients)@.clients[window].tag_set() == (if wanted_tags(matched).len() > 0 {
                wanted_tags(matched).to_set()
            } else {
                old(clients)@.clients[window].tag_set()
            })
            &&& settled(
                old(clients)@.order,
                final(clients)@.order,
                window,
                Some(final(clients)@.clients[window].tag_set()),
                false,
                crate::wm::subset::InsertBias::NextToRight,
            )
        } else {
            final(clients)@ == old(clients)@
        },
{
    let none: Vec<Tag> = Vec::new();
    let tags = match &matched {
        Some((tags, _)) => tags,
        None => &none,
    };
    let found = clients.refresh_client(window, props, tags.as_slice());
    if found && tags.len() > 0 {
        WmCommand::Redraw
    } else {
        WmCommand::NoCommand
    }
}

/// Takes note that the configuration of a CRTC changed: its screen takes
/// the reported area, and the screens are to be drawn anew.
pub fn crtc_change<L: Layout>(screens: &mut ScreenSet<L>, change: &CrtcChange) -> (command: WmCommand)
    requires
        old(screens).wf(),
    ensures
        command == WmCommand::Redraw,
        final(screens).wf(),
        final(screens)@.current == old(screens)@.current,
        updated(old(screens)@.screens, final(screens)@.screens, *change),
{
    screens.update(change);
    WmCommand::Redraw
}

/// Where a window goes when a screen is drawn.
#[derive(Clone, Copy, Debug, PartialEq, Eq, Structural)]
pub struct Placement {
    /// the window
    pub window: Window,
    /// its rectangle, or nothing if it is not to be seen
    pub geometry: Option<Geometry>,
}

/// The position of the focused window among the leaves, or the first
/// position where there is none.
pub open spec fn focus_position(leaves: Seq<Window>, focused: Option<Window>) -> nat {
    match focused {
        Some(w) => match place_of(leaves, w) {
            Some(k) => k as nat,
            None => 0,
        },
        None => 0,
    }
}

/// The windows that a tag set shows, in the order of their leaves.
pub open spec fn leaves_on(clients: ClientSetView, tags: Set<Tag>) -> Seq<Window> {
    match clients.tree_of(tags) {
        Some(tree) => tree.leaves(),
        None => Seq::empty(),
    }
}

/// The window with the focus among those that a tag set shows.
pub open spec fn focus_on(clients: ClientSetView, tags: Set<Tag>) -> Option<Window> {
    match clients.tree_of(tags) {
        Some(tree) => tree.focused_window(),
        None => None,
    }
}

/// The placements of the windows of a tag set in an area: each window,
/// in the order of the leaves, with the rectangle that the layout of the
/// tag set gives to its position. In an area whose far edges are no
/// coordinates no window is to be seen.
pub open spec fn placements<L: Layout>(clients: ClientSetView, tagset: TagSet<L>, area: TilingArea) -> Seq<
    Placement,
> {
    let leaves = leaves_on(clients, tagset.tags@);
    let at = focus_position(leaves, focus_on(clients, tagset.tags@));
    Seq::new(
        leaves.len(),
        |i: int|
            Placement {
                window: leaves[i],
                geometry: if area.fits() {
                    tagset.layout.placed(leaves.len(), at, area, i)
                } else {
                    None
                },
            },
    )
}

/// Plans the drawing of the windows of a tag set in an area.
pub fn arrange_tagset<L: Layout>(clients: &ClientSet, tagset: &TagSet<L>, area: &TilingArea) -> (plan:
    Vec<Placement>)
    requires
        clients.wf(),
    ensures
        plan@ == placements(clients@, *tagset, *area),
{
    let leaves = clients.windows_on(&tagset.tags);
    let focused = clients.get_focused_window(&tagset.tags);
    let mut at: usize = 0;
    if let Some(w) = focused {
        let mut k: usize = 0;
        while k < leaves.len() && leaves[k] != w
            invariant
                k <= leaves@.len(),
                forall|j: int| 0 <= j < k ==> leaves@[j] != w,
            decreases leaves@.len() - k,
        {
            k = k + 1;
        }
        if k < leaves.len() {
            at = k;
            proof {
                assert(crate::wm::client::stands_first(leaves@, w, k as int));
                let c = choose|c: int| crate::wm::client::stands_first(leaves@, w, c);
                if c < k {
                    assert(leaves@[c] != w);
                } else if k < c {
                    assert(leaves@[k as int] != w);
                }
            }
        } else {
            proof {
                assert forall|c: int| !crate::wm::client::stands_first(leaves@, w, c) by {}
            }
        }
    }
    assert(at as nat == focus_position(leaves@, focused));
    let fits = area.check_fits();
    let geometries = if fits {
        tagset.layout.arrange(leaves.len(), at, area)
    } else {
        Vec::new()
    };
    let mut plan: Vec<Placement> = Vec::new();
    let mut i: usize = 0;
    while i < leaves.len()
        invariant
            i <= leaves@.len(),
            fits == area.fits(),
            fits ==> geometries@ =~= arranged(tagset.layout, leaves@.len(), at as nat, *area),
            fits ==> geometries@.len() == leaves@.len(),
            plan@.len() == i,
            forall|j: int|
                0 <= j < i ==> plan@[j] == (Placement {
                    window: leaves@[j],
                    geometry: if fits {
                        tagset.layout.placed(leaves@.len(), at as nat, *area, j)
                    } else {
                        None
                    },
                }),
        decreases leaves@.len() - i,
    {
        let geometry = if fits {
            proof {
                let all = arranged(tagset.layout, leaves@.len(), at as nat, *area);
                assert(all[i as int] == tagset.layout.placed(
                    leaves@.len(),
                    at as nat,
                    *area,
                    i as int,
                ));
            }
            geometries[i]
        } else {
            None
        };
        plan.push(Placement { window: leaves[i], geometry });
        i = i + 1;
    }
    assert(plan@ =~= placements(clients@, *tagset, *area));
    plan
}

/// What is to be drawn on a screen.
pub struct ScreenPlan {
    /// the windows of the screen and their rectangles, in order
    pub placements: Vec<Placement>,
    /// the window that gets the input focus
    pub focus: Option<Window>,
}

/// Plans the drawing of a screen: the windows of its current tag set are
/// placed in its area, and the focused one among them gets the input
/// focus. A screen that shows no tag set shows no window.
pub fn plan_screen<L: Layout>(clients: &ClientSet, screen: &Screen<L>) -> (plan: ScreenPlan)
    requires
        clients.wf(),
    ensures
        match screen.tag_stack@.current() {
            Some(tagset) => plan.placements@ == placements(clients@, tagset, screen.area)
                && plan.focus == focus_on(clients@, tagset.tags@),
            None => plan.placements@.len() == 0 && plan.focus is None,
        },
{
    match screen.tag_stack.current() {
        Some(tagset) => ScreenPlan {
            placements: arrange_tagset(clients, tagset, &screen.area),
            focus: clients.get_focused_window(&tagset.tags),
        },
        None => ScreenPlan { placements: Vec::new(), focus: None },
    }
}

/// The rectangles of a plan lie within the area of the screen and do not
/// overlap, whatever the layout.
pub proof fn lemma_plan_valid<L: Layout>(clients: ClientSetView, tagset: TagSet<L>, area: TilingArea)
    ensures
        ({
            let plan = placements(clients, tagset, area);
            &&& forall|i: int|
                0 <= i < plan.len() && plan[i].geometry is Some ==> crate::wm::layout::inside(
                    (#[trigger] plan[i]).geometry->0,
                    area,
                )
            &&& forall|i: int, j: int|
                0 <= i < j < plan.len() && plan[i].geometry is Some && plan[j].geometry is Some
                    ==> crate::wm::layout::apart(
                    (#[trigger] plan[i]).geometry->0,
                    (#[trigger] plan[j]).geometry->0,
                )
        }),
{
    let leaves = leaves_on(clients, tagset.tags@);
    let at = focus_position(leaves, focus_on(clients, tagset.tags@));
    let plan = placements(clients, tagset, area);
    if area.fits() {
        tagset.layout.lemma_arranged_valid(leaves.len(), at, area);
        let all = arranged(tagset.layout, leaves.len(), at, area);
        assert(all =~= Seq::new(
            leaves.len(),
            |i: int| tagset.layout.placed(leaves.len(), at, area, i),
        ));
        assert(all.len() == leaves.len());
        assert forall|i: int| 0 <= i < all.len() implies #[trigger] all[i] == plan[i].geometry by {
            assert(all[i] == tagset.layout.placed(leaves.len(), at, area, i));
        }
        assert forall|i: int| 0 <= i < plan.len() && plan[i].geometry is Some implies crate::wm::layout::inside(
            (#[trigger] plan[i]).geometry->0,
            area,
        ) by {
            assert(all[i] == plan[i].geometry);
        }
        assert forall|i: int, j: int|
            0 <= i < j < plan.len() && plan[i].geometry is Some && plan[j].geometry is Some implies crate::wm::layout::apart(
            (#[trigger] plan[i]).geometry->0,
            (#[trigger] plan[j]).geometry->0,
        ) by {
            assert(all[i] == plan[i].geometry);
            assert(all[j] == plan[j].geometry);
        }
    }
}

/// The plan is the one for the screen.
pub open spec fn plan_for<L: Layout>(clients: ClientSetView, screen: Screen<L>, plan: ScreenPlan) -> bool {
    match screen.tag_stack@.current() {
        Some(tagset) => plan.placements@ == placements(clients, tagset, screen.area) && plan.focus
            == focus_on(clients, tagset.tags@),
        None => plan.placements@.len() == 0 && plan.focus is None,
    }
}

/// The view that a screen shows has a tree, unless no client is visible on it.
pub open spec fn view_ready<L: Layout>(clients: ClientSetView, screen: Screen<L>) -> bool {
    match screen.tag_stack@.current() {
        Some(tagset) => clients.tree_of(tagset.tags@) is Some || forall|w: Window|
            !crate::wm::client::shows(clients.clients, tagset.tags@, w),
        None => true,
    }
}

/// The second client set has the clients of the first, and its order
/// starts with the order of the first.
pub open spec fn extends(a: ClientSetView, b: ClientSetView) -> bool {
    &&& b.clients == a.clients
    &&& a.order.len() <= b.order.len()
    &&& b.order.take(a.order.len() as int) == a.order
}

/// Some plan gives the window a rectangle.
pub open spec fn placed(plans: Seq<ScreenPlan>, w: Window) -> bool {
    exists|k: int, i: int|
        0 <= k < plans.len() && 0 <= i < plans[k].placements@.len()
            && #[trigger] plans[k].placements@[i].window == w
            && plans[k].placements@[i].geometry is Some
}

/// A plan stays the plan for its screen when views of other tags get
/// their trees.
proof fn lemma_plan_stable<L: Layout>(a: ClientSetView, b: ClientSetView, screen: Screen<L>, plan: ScreenPlan)
    requires
        a.wf(),
        b.wf(),
        extends(a, b),
        view_ready(a, screen),
        plan_for(a, screen, plan),
    ensures
        view_ready(b, screen),
        plan_for(b, screen, plan),
{
    match screen.tag_stack@.current() {
        Some(tagset) => {
            let tags = tagset.tags@;
            if a.tree_of(tags) is Some {
                let i = choose|i: int| a.is_entry(i, tags);
                assert(b.order.take(a.order.len() as int)[i] == b.order[i]);
                assert(b.is_entry(i, tags));
                b.lemma_tree_of(i, tags);
                a.lemma_tree_of(i, tags);
            } else {
                if b.tree_of(tags) is Some {
                    let i = choose|i: int| b.is_entry(i, tags);
                    assert(b.entry_ok(i));
                    let tree = b.order[i].1;
                    let f = tree.focused->0;
                    assert(tree.is_leaf_of(f, tree.nodes[f]->window));
                    assert(tree.contains_window(tree.nodes[f]->window));
                    assert(crate::wm::client::shows(b.clients, tags, tree.nodes[f]->window));
                }
            }
            assert(placements(a, tagset, screen.area) =~= placements(b, tagset, screen.area));
        },
        None => {},
    }
}

/// What is to be drawn on all screens.
pub struct Redraw {
    /// the plan of each screen, in the order of the screens
    pub screens: Vec<ScreenPlan>,
    /// the windows of the clients that no screen shows
    pub hidden: Vec<Window>,
}

/// Whether some plan gives the window a rectangle.
fn is_placed(plans: &Vec<ScreenPlan>, w: Window) -> (res: bool)
    ensures
        res == placed(plans@, w),
{
    let mut k: usize = 0;
    while k < plans.len()
        invariant
            k <= plans@.len(),
            forall|a: int, i: int|
                0 <= a < k && 0 <= i < plans@[a].placements@.len() ==> !(
                #[trigger] plans@[a].placements@[i].window == w
                    && plans@[a].placements@[i].geometry is Some),
        decreases plans@.len() - k,
    {
        let plan = &plans[k];
        let mut i: usize = 0;
        while i < plan.placements.len()
            invariant
                i <= plan.placements@.len(),
                k < plans@.len(),
                *plan == plans@[k as int],
                forall|j: int|
                    0 <= j < i ==> !(#[trigger] plan.placements@[j].window == w
                        && plan.placements@[j].geometry is Some),
            decreases plan.placements@.len() - i,
        {
            let placement = plan.placements[i];
            if placement.window == w && placement.geometry.is_some() {
                assert(plans@[k as int].placements@[i as int].window == w);
                return true;
            }
            i = i + 1;
        }
        k = k + 1;
    }
    false
}

/// Plans the drawing of all screens. The view that a screen shows gets
/// its tree, if it lacks one and any client is visible on it; then the
/// screen is planned as `plan_screen` does. The clients whose windows no
/// plan gives a rectangle are to be hidden.
pub fn redraw<L: Layout>(clients: &mut ClientSet, screens: &ScreenSet<L>) -> (plan: Redraw)
    requires
        old(clients).wf(),
    ensures
        final(clients).wf(),
        extends(old(clients)@, final(clients)@),
        plan.screens@.len() == screens@.screens.len(),
        forall|k: int|
            0 <= k < plan.screens@.len() ==> plan_for(
                final(clients)@,
                screens@.screens[k].1,
                #[trigger] plan.screens@[k],
            ),
        plan.hidden@.no_duplicates(),
        forall|w: Window|
            plan.hidden@.contains(w) <==> final(clients)@.clients.contains_key(w) && !placed(
                plan.screens@,
                w,
            ),
{
    let list = screens.screens();
    let mut plans: Vec<ScreenPlan> = Vec::new();
    let mut k: usize = 0;
    proof {
        assert(clients@.order.take(clients@.order.len() as int) =~= clients@.order);
    }
    while k < list.len()
        invariant
            k <= list@.len(),
            list@ == screens@.screens,
            clients.wf(),
            extends(old(clients)@, clients@),
            plans@.len() == k,
            forall|j: int|
                0 <= j < k ==> plan_for(clients@, list@[j].1, #[trigger] plans@[j]) && view_ready(
                    clients@,
                    list@[j].1,
                ),
        decreases list@.len() - k,
    {
        let screen = &list[k].1;
        let ghost before = clients@;
        if let Some(tagset) = screen.tag_stack.current() {
            clients.materialize(&tagset.tags);
        }
        proof {
            if before.order.len() < clients@.order.len() {
                assert(clients@.order.drop_last() == before.order);
                assert(clients@.order.take(before.order.len() as int) =~= before.order);
            } else {
                assert(clients@.order.take(before.order.len() as int) =~= before.order);
            }
            assert(extends(before, clients@));
            assert(clients@.order.take(old(clients)@.order.len() as int) =~= old(
                clients,
            )@.order) by {
                assert(before.order.take(old(clients)@.order.len() as int) == old(
                    clients,
                )@.order);
                assert forall|i: int| 0 <= i < old(clients)@.order.len() implies clients@.order[i]
                    == old(clients)@.order[i] by {
                    assert(before.order.take(old(clients)@.order.len() as int)[i]
                        == before.order[i]);
                    assert(clients@.order.take(before.order.len() as int)[i]
                        == clients@.order[i]);
                }
            }
            assert forall|j: int| 0 <= j < k implies plan_for(
                clients@,
                list@[j].1,
                #[trigger] plans@[j],
            ) && view_ready(clients@, list@[j].1) by {
                lemma_plan_stable(before, clients@, list@[j].1, plans@[j]);
            }
        }
        let plan = plan_screen(clients, screen);
        plans.push(plan);
        k = k + 1;
    }
    let windows = clients.windows();
    let mut hidden: Vec<Window> = Vec::new();
    let mut i: usize = 0;
    while i < windows.len()
        invariant
            i <= windows@.len(),
            windows@.no_duplicates(),
            hidden@.no_duplicates(),
            forall|w: Window|
                hidden@.contains(w) <==> windows@.take(i as int).contains(w) && !placed(plans@, w),
        decreases windows@.len() - i,
    {
        let w = windows[i];
        let ghost before = hidden@;
        let is_hidden = !is_placed(&plans, w);
        if is_hidden {
            hidden.push(w);
        }
        proof {
            let head = windows@.take(i as int);
            assert(windows@.take(i + 1) =~= head.push(w));
            assert(!head.contains(w)) by {
                if head.contains(w) {
                    let j = head.index_of(w);
                    assert(windows@[j] == w && windows@[i as int] == w);
                }
            }
            assert forall|x: Window|
                hidden@.contains(x) <==> windows@.take(i + 1).contains(x) && !placed(plans@, x) by {
                if head.push(w).contains(x) {
                    let j = head.push(w).index_of(x);
                    assert(head.push(w)[j] == x);
                    if j < head.len() {
                        assert(head[j] == x);
                    }
                }
                if head.contains(x) {
                    let j = head.index_of(x);
                    assert(head.push(w)[j] == x);
                }
                if x == w {
                    assert(head.push(w)[head.len() as int] == x);
                }
                if is_hidden {
                    assert(hidden@ == before.push(w));
                    if before.contains(x) {
                        let j = before.index_of(x);
                        assert(hidden@[j] == x);
                    }
                    if hidden@.contains(x) {
                        let j = hidden@.index_of(x);
                        assert(hidden@[j] == x);
                        if j < before.len() {
                            assert(before[j] == x);
                        }
                    }
                    if x == w {
                        assert(hidden@[before.len() as int] == x);
                    }
                }
            }
            if is_hidden {
                assert(!before.contains(w));
                assert forall|a: int, b: int|
                    0 <= a < hidden@.len() && 0 <= b < hidden@.len() && a != b implies hidden@[a]
                    != hidden@[b] by {
                    if a == before.len() {
                        assert(before[b] == hidden@[b]);
                        assert(before.contains(before[b]));
                    } else if b == before.len() {
                        assert(before[a] == hidden@[a]);
                        assert(before.contains(before[a]));
                    } else {
                        assert(before[a] == hidden@[a] && before[b] == hidden@[b]);
                    }
                }
            }
        }
        i = i + 1;
    }
    proof {
        assert(windows@.take(i as int) =~= windows@);
        assert forall|w: Window|
            hidden@.contains(w) <==> clients@.clients.contains_key(w) && !placed(plans@, w) by {
            assert(windows@.contains(w) == windows@.to_set().contains(w));
        }
    }
    Redraw { screens: plans, hidden }
}

} // verus!
