use vector_map::set::VecSet;
use zenoh_net::network::PeerId;
use vector_map::VecMap;
use zenoh_net::restree::{ArcTree, ResourceTree};
use zenoh_net::walker::{VecMapWalker, VecWalker};

#[test]
fn a_vec_walker_hands_out_each_item_then_nothing() {
    let v = vec![10, 20, 30];
    let mut w = VecWalker::new();
    assert_eq!(w.walk_next(&v), Some(&10));
    assert_eq!(w.walk_next(&v), Some(&20));
    assert_eq!(w.walk_next(&v), Some(&30));
    assert_eq!(w.walk_next(&v), None);
    assert_eq!(w.walk_next(&v), None);
    let mut d: VecWalker<u8> = VecWalker::default();
    assert_eq!(d.walk_next(&vec![]), None);
}

#[test]
fn a_vec_map_walker_hands_out_entries_in_storage_order() {
    let mut m: VecMap<String, usize> = VecMap::new();
    m.insert("/b".to_string(), 2);
    m.insert("/a".to_string(), 1);
    let mut w = VecMapWalker::new();
    assert_eq!(w.walk_next(&m), Some((&"/b".to_string(), &2)));
    assert_eq!(w.walk_next(&m), Some((&"/a".to_string(), &1)));
    assert_eq!(w.walk_next(&m), None);
    let mut d: VecMapWalker<String, usize> = VecMapWalker::default();
    assert_eq!(d.walk_next(&VecMap::new()), None);
}

fn tree() -> ResourceTree<u32> {
    ResourceTree::new()
}

#[test]
fn a_new_tree_has_a_root_with_the_empty_expression() {
    let t = tree();
    assert_eq!(t.root(), 0);
    assert_eq!(t.expr(0), "");
    assert_eq!(*t.weight(0), 0);
}

#[test]
fn inserting_then_getting_finds_the_same_node() {
    let mut t = tree();
    let root = t.root();
    let n = t.get_or_insert_with(root, "/a/b/c", 7);
    assert_eq!(t.expr(n), "/a/b/c");
    assert_eq!(*t.weight(n), 7);
    assert_eq!(t.get(root, "/a/b/c"), Some(n));
    let ab = t.get(root, "/a/b").unwrap();
    assert_eq!(t.expr(ab), "/a/b");
    assert_eq!(t.get(ab, "/c"), Some(n));
    assert_eq!(t.get(ab, "/d"), None);
    assert_eq!(t.get(root, "/a/bc"), None);
}

#[test]
fn a_suffix_without_a_leading_slash_extends_the_prefix_chunk() {
    let mut t = tree();
    let root = t.root();
    let a = t.get_or_insert_with(root, "/a", 1);
    let ab = t.get_or_insert_with(a, "b/c", 2);
    assert_eq!(t.expr(ab), "/ab/c");
    assert_eq!(t.get(root, "/ab/c"), Some(ab));
}

#[test]
fn getting_or_inserting_twice_keeps_the_first_node_and_weight() {
    let mut t = tree();
    let root = t.root();
    let first = t.get_or_insert_with(root, "/x/y", 3);
    let again = t.get_or_insert_with(root, "/x/y", 9);
    assert_eq!(first, again);
    assert_eq!(*t.weight(again), 3);
}

#[test]
fn an_intermediate_node_gets_its_weight_when_asked_for() {
    let mut t = tree();
    let root = t.root();
    t.get_or_insert_with(root, "/x/y", 3);
    let x = t.get_or_insert(root, "/x");
    assert_eq!(*t.weight(x), 0);
    let z = t.get_or_insert_with(x, "/z", 5);
    assert_eq!(t.expr(z), "/x/z");
}

#[test]
fn a_walk_visits_weighted_nodes_depth_first() {
    let mut t = tree();
    let root = t.root();
    let ab = t.get_or_insert_with(root, "/a/b", 1);
    let c = t.get_or_insert_with(root, "/c", 2);
    let ad = t.get_or_insert_with(root, "/a/d", 3);
    let mut v = t.visit();
    let mut seen = Vec::new();
    while let Some(n) = v.walk_next(t.container()) {
        seen.push(n);
    }
    assert_eq!(seen, vec![root, ab, ad, c]);
    let a = t.get(root, "/a").unwrap();
    let mut v = t.visit_from(a);
    let mut seen = Vec::new();
    while let Some(n) = v.walk_next(t.container()) {
        seen.push(n);
    }
    assert_eq!(seen, vec![ab, ad]);
}

#[test]
fn the_reverse_path_hands_out_the_deepest_weighted_node_first() {
    let mut t = tree();
    let root = t.root();
    let a = t.get_or_insert_with(root, "/a", 1);
    let abc = t.get_or_insert_with(root, "/a/b/c", 2);
    let mut path = t.reverse_path(root, "/a/b/c/d");
    let mut seen = Vec::new();
    while let Some(n) = path.walk_next(t.container()) {
        seen.push(n);
    }
    assert_eq!(seen, vec![abc, a, root]);
}

#[test]
fn separate_roots_keep_separate_trees() {
    let mut t = tree();
    let root = t.root();
    let other = t.insert("ignored");
    assert_eq!(t.expr(other), "");
    let n = t.get_or_insert_with(other, "/a", 4);
    assert_eq!(t.get(root, "/a"), None);
    assert_eq!(t.get(other, "/a"), Some(n));
}

#[test]
fn weights_change_in_place() {
    let mut arena: ArcTree<u32> = ArcTree::new();
    let r = arena.insert_with("", 1);
    *arena.weight_mut(r) += 41;
    assert_eq!(*arena.weight(r), 42);
}

#[test]
fn cleaning_removes_a_node_and_the_ancestors_it_leaves_empty() {
    let mut t = tree();
    let root = t.root();
    let abc = t.get_or_insert_with(root, "/a/b/c", 3);
    let ab = t.get(root, "/a/b").unwrap();
    let a = t.get(root, "/a").unwrap();
    let held = vec![false; 4];
    assert_eq!(t.clean(abc, &held), Some(3));
    assert_eq!(t.get(root, "/a/b/c"), None);
    assert_eq!(t.get(root, "/a/b"), None);
    assert_eq!(t.get(root, "/a"), None);
    assert_eq!(t.get(root, ""), Some(root));
    let again = t.get_or_insert_with(root, "/a", 1);
    assert_ne!(again, a);
    assert_ne!(again, ab);
}

#[test]
fn cleaning_stops_at_held_nodes_and_nodes_with_other_children() {
    let mut t = tree();
    let root = t.root();
    let abc = t.get_or_insert_with(root, "/a/b/c", 3);
    let ad = t.get_or_insert_with(root, "/a/d", 4);
    let mut held = vec![false; 5];
    let ab = t.get(root, "/a/b").unwrap();
    held[ab] = true;
    assert_eq!(t.clean(abc, &held), Some(3));
    assert_eq!(t.get(root, "/a/b"), Some(ab));
    assert_eq!(t.get(root, "/a/b/c"), None);
    held[ab] = false;
    assert_eq!(t.clean(ab, &held), None);
    assert_eq!(t.get(root, "/a/b"), None);
    assert_eq!(t.get(root, "/a/d"), Some(ad));
}

#[test]
fn a_held_node_or_a_node_with_children_stays() {
    let mut t = tree();
    let root = t.root();
    let abc = t.get_or_insert_with(root, "/a/b/c", 3);
    let ab = t.get(root, "/a/b").unwrap();
    let mut held = vec![false; 4];
    assert_eq!(t.clean(ab, &held), None);
    assert_eq!(t.get(root, "/a/b/c"), Some(abc));
    held[abc] = true;
    assert_eq!(t.clean(abc, &held), None);
    assert_eq!(t.get(root, "/a/b/c"), Some(abc));
    assert_eq!(t.clean(root, &held), None);
}

#[test]
fn a_walker_hands_out_every_item_then_nothing() {
    let v = vec![4, 5, 6];
    let mut w = VecWalker::new();
    let got: Vec<Option<i32>> = (0..5).map(|_| w.walk_next(&v).copied()).collect();
    assert_eq!(got, vec![Some(4), Some(5), Some(6), None, None]);
}

#[test]
fn the_tree_stays_usable_after_a_weight_changes() {
    let mut t = tree();
    let root = t.root();
    let n = t.get_or_insert_with(root, "/a", 1);
    *t.weight_mut(n) = 9;
    assert_eq!(*t.weight(n), 9);
    assert_eq!(*t.weight(root), 0);
    assert_eq!(t.get(root, "/a"), Some(n));
}

#[test]
fn get_or_insert_keeps_an_existing_weight() {
    let mut t = tree();
    let root = t.root();
    let n = t.get_or_insert_with(root, "/a", 5);
    assert_eq!(t.get_or_insert(root, "/a"), n);
    assert_eq!(*t.weight(n), 5);
}

#[test]
fn a_set_walker_hands_out_each_identifier_then_nothing() {
    let mut set: VecSet<PeerId> = VecSet::new();
    set.insert(PeerId { id: 3 });
    set.insert(PeerId { id: 1 });
    let mut w: VecMapWalker<PeerId, ()> = VecMapWalker::new();
    assert_eq!(w.walk_next_in_set(&set), Some(&PeerId { id: 3 }));
    assert_eq!(w.walk_next_in_set(&set), Some(&PeerId { id: 1 }));
    assert_eq!(w.walk_next_in_set(&set), None);
}

#[test]
fn a_mutable_walker_changes_values_in_place() {
    let mut m: VecMap<String, usize> = VecMap::new();
    m.insert("/a".to_string(), 1);
    m.insert("/b".to_string(), 2);
    let mut w: VecMapWalker<String, usize> = VecMapWalker::new();
    while let Some((_, v)) = w.walk_next_mut(&mut m) {
        *v += 10;
    }
    assert_eq!(m.get("/a"), Some(&11));
    assert_eq!(m.get("/b"), Some(&12));
}
