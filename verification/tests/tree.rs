use gabelstaplerwm::wm::layout::SplitDirection;
use gabelstaplerwm::wm::subset::{InsertBias, SubsetEntry, SubsetError};
use gabelstaplerwm::wm::tree::SubsetTree;

fn leaf_window(tree: &SubsetTree, slot: usize) -> u32 {
    match tree.get(slot) {
        Some(SubsetEntry::Client(_, window)) => *window,
        _ => panic!("slot {} holds no leaf", slot),
    }
}

fn split_of(tree: &SubsetTree, slot: usize) -> (Option<usize>, SplitDirection, Vec<usize>) {
    match tree.get(slot) {
        Some(SubsetEntry::Split(parent, direction, children)) => {
            (*parent, *direction, children.clone())
        }
        _ => panic!("slot {} holds no split", slot),
    }
}

#[test]
fn empty_tree_has_nothing() {
    let tree = SubsetTree::new();
    assert!(tree.is_empty());
    assert_eq!(tree.root(), None);
    assert_eq!(tree.get_focused(), None);
    assert_eq!(tree.leaves(), Vec::<u32>::new());
    assert!(!tree.contains(1));
}

#[test]
fn first_window_becomes_root_and_focus() {
    let mut tree = SubsetTree::new();
    tree.add(1, true, InsertBias::BelowRight, SplitDirection::Vertical);
    let root = tree.root().unwrap();
    assert_eq!(leaf_window(&tree, root), 1);
    assert_eq!(tree.get_focused(), Some(1));
    assert_eq!(tree.leaves(), vec![1]);
}

#[test]
fn sibling_of_root_wraps_root() {
    let mut tree = SubsetTree::new();
    tree.add(1, true, InsertBias::BelowRight, SplitDirection::Vertical);
    tree.add(2, true, InsertBias::NextToRight, SplitDirection::Vertical);
    let root = tree.root().unwrap();
    let (parent, direction, children) = split_of(&tree, root);
    assert_eq!(parent, None);
    assert_eq!(direction, SplitDirection::Vertical);
    assert_eq!(children.len(), 2);
    assert_eq!(leaf_window(&tree, children[0]), 1);
    assert_eq!(leaf_window(&tree, children[1]), 2);
    assert_eq!(tree.get_focused(), Some(2));
    assert_eq!(tree.leaves(), vec![1, 2]);
}

#[test]
fn below_left_wraps_the_reference() {
    let mut tree = SubsetTree::new();
    tree.add(1, true, InsertBias::BelowRight, SplitDirection::Vertical);
    tree.add(2, true, InsertBias::NextToRight, SplitDirection::Vertical);
    tree.add(3, false, InsertBias::BelowLeft, SplitDirection::Horizontal);
    let root = tree.root().unwrap();
    let (_, direction, children) = split_of(&tree, root);
    assert_eq!(direction, SplitDirection::Vertical);
    assert_eq!(leaf_window(&tree, children[0]), 1);
    let (parent, inner_direction, inner) = split_of(&tree, children[1]);
    assert_eq!(parent, Some(root));
    assert_eq!(inner_direction, SplitDirection::Horizontal);
    assert_eq!(leaf_window(&tree, inner[0]), 3);
    assert_eq!(leaf_window(&tree, inner[1]), 2);
    assert_eq!(tree.get_focused(), Some(2));
    assert_eq!(tree.leaves(), vec![1, 3, 2]);
}

#[test]
fn next_to_left_goes_just_before_the_reference() {
    let mut tree = SubsetTree::new();
    tree.add(1, true, InsertBias::NextToRight, SplitDirection::Vertical);
    tree.add(2, true, InsertBias::NextToRight, SplitDirection::Vertical);
    tree.add(3, true, InsertBias::NextToRight, SplitDirection::Vertical);
    assert_eq!(tree.leaves(), vec![1, 2, 3]);
    tree.add(4, false, InsertBias::NextToLeft, SplitDirection::Vertical);
    assert_eq!(tree.leaves(), vec![1, 2, 4, 3]);
    assert_eq!(tree.get_focused(), Some(3));
    tree.set_focus(1);
    tree.add(5, true, InsertBias::NextToRight, SplitDirection::Vertical);
    assert_eq!(tree.leaves(), vec![1, 5, 2, 4, 3]);
    assert_eq!(tree.get_focused(), Some(5));
}

#[test]
fn adding_a_window_twice_changes_nothing() {
    let mut tree = SubsetTree::new();
    tree.add(1, true, InsertBias::NextToRight, SplitDirection::Vertical);
    tree.add(2, true, InsertBias::NextToRight, SplitDirection::Vertical);
    tree.add(1, true, InsertBias::NextToRight, SplitDirection::Vertical);
    assert_eq!(tree.leaves(), vec![1, 2]);
    assert_eq!(tree.get_focused(), Some(2));
}

#[test]
fn removing_collapses_a_split_with_one_child() {
    let mut tree = SubsetTree::new();
    tree.add(1, true, InsertBias::NextToRight, SplitDirection::Vertical);
    tree.add(2, true, InsertBias::NextToRight, SplitDirection::Vertical);
    tree.remove(2);
    let root = tree.root().unwrap();
    assert_eq!(leaf_window(&tree, root), 1);
    assert_eq!(tree.get(root).unwrap().get_parent(), None);
    assert_eq!(tree.get_focused(), Some(1));
    tree.remove(1);
    assert!(tree.is_empty());
    assert_eq!(tree.get_focused(), None);
}

#[test]
fn removing_an_inner_split_child_lifts_the_other() {
    let mut tree = SubsetTree::new();
    tree.add(1, true, InsertBias::NextToRight, SplitDirection::Vertical);
    tree.add(2, true, InsertBias::NextToRight, SplitDirection::Vertical);
    tree.add(3, true, InsertBias::BelowRight, SplitDirection::Horizontal);
    assert_eq!(tree.leaves(), vec![1, 2, 3]);
    tree.remove(3);
    let root = tree.root().unwrap();
    let (_, direction, children) = split_of(&tree, root);
    assert_eq!(direction, SplitDirection::Vertical);
    assert_eq!(children.len(), 2);
    assert_eq!(leaf_window(&tree, children[0]), 1);
    assert_eq!(leaf_window(&tree, children[1]), 2);
    assert_eq!(tree.get(children[1]).unwrap().get_parent(), Some(root));
    assert_eq!(tree.get_focused(), Some(2));
}

#[test]
fn focus_falls_to_the_right_sibling_first() {
    let mut tree = SubsetTree::new();
    tree.add(1, true, InsertBias::NextToRight, SplitDirection::Vertical);
    tree.add(2, true, InsertBias::NextToRight, SplitDirection::Vertical);
    tree.add(3, true, InsertBias::NextToRight, SplitDirection::Vertical);
    tree.set_focus(2);
    tree.remove(2);
    assert_eq!(tree.get_focused(), Some(3));
    tree.remove(3);
    assert_eq!(tree.get_focused(), Some(1));
}

#[test]
fn focus_falls_into_a_sibling_split() {
    let mut tree = SubsetTree::new();
    tree.add(1, true, InsertBias::NextToRight, SplitDirection::Vertical);
    tree.add(2, true, InsertBias::NextToRight, SplitDirection::Vertical);
    tree.add(3, true, InsertBias::BelowRight, SplitDirection::Horizontal);
    tree.add(4, true, InsertBias::NextToRight, SplitDirection::Horizontal);
    assert_eq!(tree.leaves(), vec![1, 2, 3, 4]);
    tree.set_focus(1);
    tree.remove(1);
    assert_eq!(tree.get_focused(), Some(2));
    assert_eq!(tree.leaves(), vec![2, 3, 4]);
}

#[test]
fn removing_an_unknown_window_changes_nothing() {
    let mut tree = SubsetTree::new();
    tree.add(1, true, InsertBias::NextToRight, SplitDirection::Vertical);
    tree.remove(7);
    assert_eq!(tree.leaves(), vec![1]);
    assert_eq!(tree.get_focused(), Some(1));
}

#[test]
fn remove_subtree_takes_the_selected_leaf() {
    let mut tree = SubsetTree::new();
    tree.add(1, true, InsertBias::NextToRight, SplitDirection::Vertical);
    tree.add(2, true, InsertBias::NextToRight, SplitDirection::Vertical);
    tree.add(3, true, InsertBias::NextToRight, SplitDirection::Vertical);
    assert!(tree.select(1));
    assert_eq!(tree.get_selected(), Some(1));
    tree.remove_subtree();
    assert_eq!(tree.leaves(), vec![2, 3]);
    assert_eq!(tree.get_selected(), None);
    assert_eq!(tree.get_focused(), Some(3));
    tree.remove_subtree();
    assert_eq!(tree.leaves(), vec![2]);
    assert_eq!(tree.get_focused(), Some(2));
}

#[test]
fn selection_is_the_reference_of_insertion() {
    let mut tree = SubsetTree::new();
    tree.add(1, true, InsertBias::NextToRight, SplitDirection::Vertical);
    tree.add(2, true, InsertBias::NextToRight, SplitDirection::Vertical);
    assert!(tree.select(1));
    tree.add(3, false, InsertBias::NextToRight, SplitDirection::Vertical);
    assert_eq!(tree.leaves(), vec![1, 3, 2]);
    assert!(!tree.select(9));
    tree.deselect();
    assert_eq!(tree.get_selected(), None);
}

#[test]
fn swap_exchanges_places_and_keeps_focus_on_its_window() {
    let mut tree = SubsetTree::new();
    tree.add(1, true, InsertBias::NextToRight, SplitDirection::Vertical);
    tree.add(2, true, InsertBias::NextToRight, SplitDirection::Vertical);
    tree.add(3, true, InsertBias::NextToRight, SplitDirection::Vertical);
    assert!(tree.swap(1, 3));
    assert_eq!(tree.leaves(), vec![3, 2, 1]);
    assert_eq!(tree.get_focused(), Some(3));
    assert!(!tree.swap(1, 1));
    assert!(!tree.swap(1, 9));
    assert_eq!(tree.leaves(), vec![3, 2, 1]);
}

#[test]
fn slots_are_reused_and_stay_valid() {
    let mut tree = SubsetTree::new();
    tree.add(1, true, InsertBias::NextToRight, SplitDirection::Vertical);
    tree.add(2, true, InsertBias::NextToRight, SplitDirection::Vertical);
    tree.add(3, true, InsertBias::NextToRight, SplitDirection::Vertical);
    tree.remove(2);
    tree.add(4, true, InsertBias::NextToRight, SplitDirection::Vertical);
    assert_eq!(tree.leaves(), vec![1, 3, 4]);
    assert_eq!(tree.find(4).map(|slot| leaf_window(&tree, slot)), Some(4));
    assert_eq!(tree.find(2), None);
}

#[test]
fn entry_probes() {
    let mut split = SubsetEntry::Split(Some(4), SplitDirection::Horizontal, vec![7, 8, 7, 9]);
    let mut leaf = SubsetEntry::Client(None, 12);
    assert_eq!(split.get_parent(), Some(4));
    assert_eq!(leaf.get_parent(), None);
    assert_eq!(split.find_child(8), Ok(1));
    assert_eq!(split.find_child(7), Ok(0));
    assert_eq!(split.find_child(1), Err(SubsetError::WrongParent));
    assert_eq!(leaf.find_child(1), Err(SubsetError::WrongKindOfNode));
    assert!(leaf.get_children().is_err());
    assert_eq!(split.get_children().unwrap(), &vec![7, 8, 7, 9]);
    assert_eq!(split.remove_child(7), Ok(()));
    assert_eq!(split.get_children().unwrap(), &vec![8, 9]);
    assert_eq!(leaf.remove_child(7), Err(SubsetError::WrongKindOfNode));
    split.get_children_mut().unwrap().push(3);
    assert_eq!(split.get_children().unwrap(), &vec![8, 9, 3]);
    assert!(leaf.get_children_mut().is_err());
    leaf.set_parent(Some(2));
    assert_eq!(leaf.get_parent(), Some(2));
    split.set_parent(None);
    assert_eq!(split.get_parent(), None);
}

#[test]
fn subtree_lists_a_node_before_what_is_below_it() {
    let mut tree = SubsetTree::new();
    tree.add(1, true, InsertBias::NextToRight, SplitDirection::Vertical);
    tree.add(2, true, InsertBias::NextToRight, SplitDirection::Vertical);
    tree.add(3, true, InsertBias::BelowRight, SplitDirection::Horizontal);
    let root = tree.root().unwrap();
    let (_, _, children) = split_of(&tree, root);
    let (_, _, inner) = split_of(&tree, children[1]);
    assert_eq!(
        tree.enumerate_subtree(root),
        vec![root, children[0], children[1], inner[0], inner[1]]
    );
    assert_eq!(tree.enumerate_subtree(children[1]), vec![children[1], inner[0], inner[1]]);
    assert_eq!(tree.enumerate_subtree(inner[1]), vec![inner[1]]);
}

#[test]
fn swap_subtrees_exchanges_neighbouring_siblings() {
    let mut tree = SubsetTree::new();
    tree.add(1, true, InsertBias::NextToRight, SplitDirection::Vertical);
    tree.add(2, true, InsertBias::NextToRight, SplitDirection::Vertical);
    tree.add(3, true, InsertBias::NextToRight, SplitDirection::Vertical);
    tree.swap_subtrees(InsertBias::NextToRight);
    assert_eq!(tree.leaves(), vec![1, 2, 3]);
    tree.swap_subtrees(InsertBias::NextToLeft);
    assert_eq!(tree.leaves(), vec![1, 3, 2]);
    assert_eq!(tree.get_focused(), Some(3));
    tree.swap_subtrees(InsertBias::BelowLeft);
    assert_eq!(tree.leaves(), vec![3, 1, 2]);
    tree.swap_subtrees(InsertBias::BelowLeft);
    assert_eq!(tree.leaves(), vec![3, 1, 2]);
    tree.select(1);
    tree.swap_subtrees(InsertBias::BelowRight);
    assert_eq!(tree.leaves(), vec![3, 2, 1]);
    let mut lone = SubsetTree::new();
    lone.swap_subtrees(InsertBias::NextToLeft);
    lone.add(1, true, InsertBias::NextToRight, SplitDirection::Vertical);
    lone.swap_subtrees(InsertBias::NextToLeft);
    assert_eq!(lone.leaves(), vec![1]);
}

/// Checks the links of a tree from the root down; returns the windows found.
fn check_links(tree: &SubsetTree) -> Vec<u32> {
    let mut windows = Vec::new();
    let root = match tree.root() {
        Some(root) => root,
        None => return windows,
    };
    assert_eq!(tree.get(root).unwrap().get_parent(), None);
    for slot in tree.enumerate_subtree(root) {
        match tree.get(slot).unwrap() {
            SubsetEntry::Client(_, window) => windows.push(*window),
            SubsetEntry::Split(_, _, children) => {
                assert!(children.len() >= 2);
                for (at, child) in children.iter().enumerate() {
                    assert_eq!(tree.get(*child).unwrap().get_parent(), Some(slot));
                    assert!(!children[..at].contains(child));
                }
            }
        }
    }
    let mut sorted = windows.clone();
    sorted.sort();
    sorted.dedup();
    assert_eq!(sorted.len(), windows.len());
    assert_eq!(windows, tree.leaves());
    let focused = tree.get_focused().unwrap();
    assert!(windows.contains(&focused));
    if let Some(selected) = tree.get_selected() {
        assert!(windows.contains(&selected));
    }
    windows
}

#[test]
fn links_stay_consistent_under_any_sequence() {
    let biases = [
        InsertBias::BelowLeft,
        InsertBias::BelowRight,
        InsertBias::NextToLeft,
        InsertBias::NextToRight,
    ];
    let mut tree = SubsetTree::new();
    let mut present: Vec<u32> = Vec::new();
    let mut state: u32 = 12345;
    for step in 0..400u32 {
        state = state.wrapping_mul(1664525).wrapping_add(1013904223);
        let choice = (state >> 16) % 10;
        let window = (state >> 8) % 12;
        if choice < 5 {
            let bias = biases[((state >> 4) % 4) as usize];
            let split = if step % 2 == 0 { SplitDirection::Vertical } else { SplitDirection::Horizontal };
            tree.add(window, choice % 2 == 0, bias, split);
            if !present.contains(&window) {
                present.push(window);
            }
        } else if choice < 8 {
            tree.remove(window);
            present.retain(|w| *w != window);
        } else if choice == 8 {
            if tree.select(window) {
                assert!(present.contains(&window));
            }
        } else {
            tree.swap_subtrees(biases[((state >> 4) % 4) as usize]);
        }
        let mut windows = check_links(&tree);
        windows.sort();
        let mut expected = present.clone();
        expected.sort();
        assert_eq!(windows, expected);
        assert_eq!(tree.is_empty(), present.is_empty());
    }
}

#[test]
fn parents_and_orphans() {
    let mut tree = SubsetTree::new();
    tree.add(1, true, InsertBias::NextToRight, SplitDirection::Vertical);
    let root = tree.root().unwrap();
    assert_eq!(tree.parent_of(root), Err(SubsetError::Orphan));
    tree.add(2, true, InsertBias::NextToRight, SplitDirection::Vertical);
    tree.add(3, true, InsertBias::NextToRight, SplitDirection::Vertical);
    let root = tree.root().unwrap();
    assert_eq!(tree.parent_of(root), Err(SubsetError::Orphan));
    assert_eq!(tree.parent_of(tree.find(1).unwrap()), Ok((root, 0)));
    assert_eq!(tree.parent_of(tree.find(3).unwrap()), Ok((root, 2)));
}
