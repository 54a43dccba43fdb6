use zenoh_net::network::{edge_plan, EdgePlan};
use zenoh_net::network::{batch_plan, check_forest, paths_fit, BatchEvent, BatchEventKind, BatchPlan};
use zenoh_net::network::merge_updates;
use zenoh_net::network::trees_to_compute;
use zenoh_net::network::{qabl_next_hops, sub_next_hops, QablEntry, QablHop};
use zenoh_net::network::LinkStateUpdate;
use zenoh_net::network::{
    detached_nodes, free_link_index, get_idx, local_context, make_link_state,
    merge_link_state_list, net_for, new_childs, resolve_link_states, shared_nodes,
    should_connect, states_for_link, tree_from_paths, Link, LinkId, LinkState, NetKind, Node,
    PeerId, ResolvedState, Tree,
};
use zenoh_net::routes::WhatAmI;

fn pid(id: u128) -> PeerId {
    PeerId { id }
}

fn state(psid: u64, sn: u64, p: Option<u128>, links: Vec<u64>) -> LinkState {
    LinkState {
        psid,
        sn,
        pid: p.map(pid),
        whatami: None,
        locators: None,
        links,
    }
}

fn node(id: u128, sn: u64, links: Vec<u128>) -> Node {
    Node {
        pid: pid(id),
        whatami: Some(WhatAmI::Peer),
        locators: None,
        sn,
        links: links.into_iter().map(pid).collect(),
    }
}

#[test]
fn link_ids_keep_their_index() {
    assert_eq!(LinkId::new(7).index(), 7);
}

#[test]
fn merging_keeps_one_state_per_node_with_the_newest_links() {
    let mut a1 = state(1, 3, Some(10), vec![2]);
    a1.whatami = Some(WhatAmI::Router);
    let a2 = state(1, 5, None, vec![2, 3]);
    let b = state(2, 1, Some(20), vec![]);
    let a3 = state(1, 4, Some(11), vec![]);
    let mut merged = merge_link_state_list(vec![a1, b.clone(), a2, a3]);
    merged.sort_by_key(|s| s.psid);
    assert_eq!(merged.len(), 2);
    assert_eq!(merged[0].psid, 1);
    assert_eq!(merged[0].sn, 5);
    assert_eq!(merged[0].links, vec![2, 3]);
    assert_eq!(merged[0].pid, Some(pid(10)));
    assert_eq!(merged[0].whatami, Some(WhatAmI::Router));
    assert_eq!(merged[1], b);
}

#[test]
fn merging_nothing_gives_nothing() {
    assert!(merge_link_state_list(Vec::new()).is_empty());
}

#[test]
fn link_mappings_are_read_back() {
    let mut link = Link::new(pid(9));
    assert_eq!(link.pid(), pid(9));
    assert_eq!(link.get_pid(&4), None);
    link.set_pid_mapping(4, pid(44));
    link.set_local_psid_mapping(4, 2);
    assert_eq!(link.get_pid(&4), Some(pid(44)));
    assert_eq!(link.get_local_psid(&4), Some(2));
    link.set_pid_mapping(4, pid(45));
    assert_eq!(link.get_pid(&4), Some(pid(45)));
}

#[test]
fn the_routing_context_of_a_link_is_its_local_index() {
    let mut link = Link::new(pid(9));
    link.set_local_psid_mapping(3, 6);
    assert_eq!(local_context(Some(&link), Some(3)), 6);
    assert_eq!(local_context(Some(&link), Some(4)), 0);
    assert_eq!(local_context(None, Some(3)), 0);
    link.set_local_psid_mapping(0, 8);
    assert_eq!(local_context(Some(&link), None), 8);
}

#[test]
fn resolving_names_nodes_and_drops_unknown_ones() {
    let mut link = Link::new(pid(9));
    let states = vec![
        state(0, 2, Some(100), vec![1, 7]),
        state(1, 3, Some(101), vec![0]),
        state(5, 1, None, vec![0]),
    ];
    let nodes = vec![(pid(101), 4)];
    let out = resolve_link_states(&mut link, states, &nodes);
    assert_eq!(
        out,
        vec![
            ResolvedState {
                pid: pid(100),
                whatami: WhatAmI::Router,
                locators: None,
                sn: 2,
                links: vec![pid(101)],
            },
            ResolvedState {
                pid: pid(101),
                whatami: WhatAmI::Router,
                locators: None,
                sn: 3,
                links: vec![pid(100)],
            },
        ]
    );
    assert_eq!(link.get_pid(&0), Some(pid(100)));
    assert_eq!(link.get_local_psid(&1), Some(4));
    assert_eq!(link.get_local_psid(&0), None);
}

#[test]
fn a_state_applies_only_when_newer() {
    let mut n = node(1, 0, vec![]);
    assert_eq!(n.apply_state(3, vec![pid(2)], Some(vec!["tcp/a".to_string()])), Some(true));
    assert_eq!(n.sn, 3);
    assert_eq!(n.links, vec![pid(2)]);
    assert_eq!(n.apply_state(4, vec![], None), Some(false));
    assert_eq!(n.locators, Some(vec!["tcp/a".to_string()]));
    assert!(n.links.is_empty());
    let before = n.clone();
    assert_eq!(n.apply_state(4, vec![pid(9)], None), None);
    assert_eq!(n, before);
}

#[test]
fn nodes_are_found_by_identifier() {
    let nodes = vec![Some(node(1, 1, vec![])), None, Some(node(3, 1, vec![]))];
    assert_eq!(get_idx(&nodes, &pid(3)), Some(2));
    assert_eq!(get_idx(&nodes, &pid(2)), None);
}

#[test]
fn unreachable_nodes_are_detached() {
    let nodes = vec![
        Some(node(0, 1, vec![1])),
        Some(node(1, 1, vec![0])),
        Some(node(2, 1, vec![3])),
        None,
        Some(node(3, 1, vec![2])),
    ];
    assert_eq!(detached_nodes(&nodes, 0), vec![2, 4]);
    assert_eq!(detached_nodes(&nodes, 2), vec![0, 1]);
}

#[test]
fn a_tree_is_read_from_the_shortest_path_predecessors() {
    // Root 0; 0 -> 1 -> 2, 0 -> 3; seen from node 1.
    let preds = vec![None, Some(0), Some(1), Some(0), None];
    let indexes = vec![0, 1, 2, 3, 4];
    let connected = vec![true, true, true, true, false];
    let tree = tree_from_paths(&preds, 1, &indexes, &connected, 5);
    assert_eq!(
        tree,
        Tree {
            parent: Some(0),
            childs: vec![2],
            directions: vec![Some(0), None, Some(2), Some(0), None],
        }
    );
}

#[test]
fn new_childs_are_those_not_there_before() {
    let trees = vec![
        Tree { parent: None, childs: vec![1, 2], directions: vec![] },
        Tree { parent: None, childs: vec![3], directions: vec![] },
    ];
    let old = vec![vec![2]];
    assert_eq!(new_childs(&old, &trees), vec![vec![1], vec![3]]);
}

#[test]
fn the_free_link_index_is_the_least_unused() {
    assert_eq!(free_link_index(&vec![0, 1, 3]), 2);
    assert_eq!(free_link_index(&vec![]), 0);
    assert_eq!(free_link_index(&vec![2, 0, 1]), 3);
}

#[test]
fn links_join_the_network_of_their_ends() {
    assert_eq!(net_for(WhatAmI::Router, WhatAmI::Router), Some(NetKind::Routers));
    assert_eq!(net_for(WhatAmI::Router, WhatAmI::Peer), Some(NetKind::Peers));
    assert_eq!(net_for(WhatAmI::Peer, WhatAmI::Peer), Some(NetKind::Peers));
    assert_eq!(net_for(WhatAmI::Client, WhatAmI::Router), None);
    assert_eq!(net_for(WhatAmI::Peer, WhatAmI::Client), None);
}

#[test]
fn autoconnection_rules() {
    assert!(should_connect(WhatAmI::Peer, true, false, Some(WhatAmI::Router), true));
    assert!(!should_connect(WhatAmI::Peer, false, true, Some(WhatAmI::Router), true));
    assert!(should_connect(WhatAmI::Router, false, true, Some(WhatAmI::Router), true));
    assert!(!should_connect(WhatAmI::Router, false, true, Some(WhatAmI::Peer), true));
    assert!(!should_connect(WhatAmI::Peer, true, false, Some(WhatAmI::Peer), false));
    assert!(!should_connect(WhatAmI::Peer, true, false, None, true));
}

#[test]
fn states_sent_on_a_link() {
    let updated = vec![(4, pid(7)), (5, pid(8))];
    assert_eq!(
        states_for_link(pid(7), pid(1), &vec![2], &updated),
        Some(vec![(2, true), (5, false)])
    );
    assert_eq!(states_for_link(pid(1), pid(1), &vec![2], &updated), Some(vec![(2, true)]));
    assert_eq!(states_for_link(pid(1), pid(1), &vec![], &updated), None);
    assert_eq!(states_for_link(pid(8), pid(1), &vec![], &vec![(5, pid(8))]), None);
}

#[test]
fn shared_nodes_are_listed_once() {
    let mut common = shared_nodes(&vec![pid(1), pid(2), pid(2), pid(3)], &vec![pid(3), pid(2), pid(9)]);
    common.sort_by_key(|p| p.id);
    assert_eq!(common, vec![pid(2), pid(3)]);
}

#[test]
fn a_link_state_describes_a_node_by_index() {
    let nodes = vec![
        Some(node(10, 4, vec![30, 20, 99])),
        Some(node(20, 1, vec![])),
        Some(node(30, 1, vec![])),
    ];
    let ls = make_link_state(&nodes, 0, true, Some(vec!["udp/x".to_string()]));
    assert_eq!(ls.psid, 0);
    assert_eq!(ls.sn, 4);
    assert_eq!(ls.pid, Some(pid(10)));
    assert_eq!(ls.whatami, Some(WhatAmI::Peer));
    assert_eq!(ls.locators, Some(vec!["udp/x".to_string()]));
    assert_eq!(ls.links, vec![2, 1]);
    assert_eq!(make_link_state(&nodes, 1, false, None).pid, None);
}

#[test]
fn linking_and_unlinking_advance_the_sequence_number() {
    let mut n = node(1, 5, vec![2]);
    n.link_to(pid(3));
    n.link_to(pid(3));
    assert_eq!(n.sn, 7);
    let mut links = n.links.clone();
    links.sort_by_key(|p| p.id);
    assert_eq!(links, vec![pid(2), pid(3)]);
    n.unlink(&pid(2));
    assert_eq!(n.links, vec![pid(3)]);
    assert_eq!(n.sn, 8);
}

fn update(p: u128, whatami: WhatAmI, list: Vec<LinkState>) -> LinkStateUpdate {
    LinkStateUpdate { list, pid: pid(p), whatami }
}

#[test]
fn updates_are_merged_per_sender_and_kind() {
    let reqs = vec![
        update(1, WhatAmI::Router, vec![state(0, 1, Some(10), vec![1])]),
        update(2, WhatAmI::Peer, vec![state(0, 4, Some(20), vec![])]),
        update(1, WhatAmI::Router, vec![state(0, 3, None, vec![2]), state(1, 1, Some(11), vec![])]),
        update(1, WhatAmI::Peer, vec![state(5, 1, None, vec![])]),
    ];
    let mut merged = merge_updates(reqs);
    merged.sort_by_key(|u| (u.pid.id, u.whatami == WhatAmI::Peer));
    assert_eq!(merged.len(), 3);
    assert_eq!(merged[0].pid, pid(1));
    assert_eq!(merged[0].whatami, WhatAmI::Router);
    let mut list = merged[0].list.clone();
    list.sort_by_key(|s| s.psid);
    assert_eq!(list.len(), 2);
    assert_eq!(list[0].sn, 3);
    assert_eq!(list[0].pid, Some(pid(10)));
    assert_eq!(list[0].links, vec![2]);
    assert_eq!(list[1].pid, Some(pid(11)));
    assert_eq!(merged[1].whatami, WhatAmI::Peer);
    assert_eq!(merged[1].list, vec![state(5, 1, None, vec![])]);
    assert_eq!(merged[2].pid, pid(2));
}

#[test]
fn trees_to_recompute_follow_the_networks_of_the_changes() {
    assert_eq!(trees_to_compute(WhatAmI::Router, &vec![WhatAmI::Router]), (true, false));
    assert_eq!(
        trees_to_compute(WhatAmI::Router, &vec![WhatAmI::Client, WhatAmI::Peer]),
        (false, true)
    );
    assert_eq!(trees_to_compute(WhatAmI::Peer, &vec![WhatAmI::Router]), (false, true));
    assert_eq!(trees_to_compute(WhatAmI::Client, &vec![WhatAmI::Router]), (false, false));
    assert_eq!(trees_to_compute(WhatAmI::Router, &vec![]), (false, false));
}

#[test]
fn a_new_node_index_is_recorded_for_the_neighbour_index_naming_it() {
    let mut link = Link::new(pid(9));
    link.set_pid_mapping(6, pid(50));
    link.set_pid_mapping(3, pid(50));
    link.set_pid_mapping(4, pid(51));
    assert_eq!(link.psid_of(&pid(50)), Some(3));
    assert_eq!(link.psid_of(&pid(52)), None);
    link.map_local_index(&pid(50), 7);
    assert_eq!(link.get_local_psid(&3), Some(7));
    assert_eq!(link.get_local_psid(&6), None);
    link.map_local_index(&pid(52), 8);
    assert_eq!(link.get_local_psid(&4), None);
}

/// Nodes 10, 11, 12 and a gap; the tree of node 0 goes to 11 for 11 and 12,
/// and has no way to 10.
fn hop_graph() -> (Vec<Option<Node>>, Vec<Tree>) {
    let nodes = vec![Some(node(10, 1, vec![11])), Some(node(11, 1, vec![10, 12])), Some(node(12, 1, vec![11])), None];
    let trees = vec![Tree { parent: None, childs: vec![1], directions: vec![None, Some(1), Some(1), None] }];
    (nodes, trees)
}

#[test]
fn data_goes_to_the_neighbour_towards_each_subscriber() {
    let (nodes, trees) = hop_graph();
    assert_eq!(sub_next_hops(&nodes, &trees, 0, &vec![pid(12), pid(10), pid(11), pid(99)]), vec![pid(11), pid(11)]);
    assert_eq!(sub_next_hops(&nodes, &trees, 0, &vec![]), vec![]);
}

#[test]
fn no_data_route_before_the_tree_exists() {
    let (nodes, trees) = hop_graph();
    assert_eq!(sub_next_hops(&nodes, &trees, 1, &vec![pid(12)]), vec![]);
    assert_eq!(qabl_next_hops(&nodes, &trees, 1, &vec![pid(11)], 4, true, &vec![QablEntry { node: pid(12), kind: 1, complete: 1 }]), vec![]);
}

#[test]
fn a_direction_to_an_absent_node_is_no_hop() {
    let nodes = vec![Some(node(10, 1, vec![])), None];
    let trees = vec![Tree { parent: None, childs: vec![], directions: vec![Some(1), None] }];
    assert_eq!(sub_next_hops(&nodes, &trees, 0, &vec![pid(10)]), vec![]);
}

#[test]
fn queries_go_towards_each_queryable_with_its_distance_index() {
    let (nodes, trees) = hop_graph();
    let qabls = vec![QablEntry { node: pid(12), kind: 1, complete: 1 }, QablEntry { node: pid(11), kind: 2, complete: 0 }];
    assert_eq!(
        qabl_next_hops(&nodes, &trees, 0, &vec![pid(11)], 4, true, &qabls),
        vec![QablHop { next: pid(11), index: 2, kind: 1, complete: 1 }, QablHop { next: pid(11), index: 1, kind: 2, complete: 0 }]
    );
    // Completeness only counts where asked.
    assert_eq!(
        qabl_next_hops(&nodes, &trees, 0, &vec![pid(11)], 4, false, &qabls)[0],
        QablHop { next: pid(11), index: 2, kind: 1, complete: 0 }
    );
}

#[test]
fn a_query_route_stops_at_the_first_unreachable_queryable() {
    let (nodes, trees) = hop_graph();
    let qabls = vec![
        QablEntry { node: pid(12), kind: 1, complete: 1 },
        QablEntry { node: pid(10), kind: 1, complete: 1 },
        QablEntry { node: pid(11), kind: 1, complete: 1 },
    ];
    assert_eq!(qabl_next_hops(&nodes, &trees, 0, &vec![pid(11)], 4, true, &qabls).len(), 1);
    // No face towards the neighbour: nothing at all.
    assert_eq!(qabl_next_hops(&nodes, &trees, 0, &vec![], 4, true, &qabls), vec![]);
    // The distance of the first queryable is not known yet.
    assert_eq!(qabl_next_hops(&nodes, &trees, 0, &vec![pid(11)], 2, true, &qabls), vec![]);
}

#[test]
fn a_neighbour_named_twice_is_linked_once() {
    let mut link = Link::new(pid(9));
    let states = vec![
        state(0, 2, Some(100), vec![1, 1, 2]),
        state(1, 3, Some(101), vec![]),
        state(2, 3, Some(101), vec![]),
    ];
    let out = resolve_link_states(&mut link, states, &vec![]);
    assert_eq!(out[0].links, vec![pid(101)]);
}

#[test]
fn a_batch_applies_each_request_to_its_network() {
    let ev = |kind, remote| BatchEvent { kind, remote };
    let events = vec![
        ev(BatchEventKind::AddLink, Some(WhatAmI::Peer)),
        ev(BatchEventKind::AddLink, Some(WhatAmI::Client)),
        ev(BatchEventKind::RemoveLink, None),
        ev(BatchEventKind::LinkStates, Some(WhatAmI::Router)),
    ];
    assert_eq!(
        batch_plan(WhatAmI::Router, &events),
        BatchPlan {
            nets: vec![Some(NetKind::Peers), None, None, Some(NetKind::Routers)],
            reply_link_id: vec![true, false, false, false],
            routers_trees: true,
            peers_trees: true,
        }
    );
    let p = batch_plan(WhatAmI::Peer, &vec![ev(BatchEventKind::RemoveLink, Some(WhatAmI::Router))]);
    assert_eq!((p.routers_trees, p.peers_trees), (false, true));
    let empty = batch_plan(WhatAmI::Router, &vec![]);
    assert!(!empty.routers_trees && !empty.peers_trees && empty.nets.is_empty());
}

#[test]
fn shortest_path_predecessors_are_checked_to_form_a_forest() {
    assert!(check_forest(&vec![None, Some(0), Some(1), None]));
    assert!(check_forest(&vec![]));
    // A cycle.
    assert!(!check_forest(&vec![Some(1), Some(0)]));
    // A node that is its own predecessor.
    assert!(!check_forest(&vec![None, Some(1)]));
    // A predecessor that is no position.
    assert!(!check_forest(&vec![None, Some(5)]));
    let preds = vec![None, Some(0), Some(1)];
    assert!(paths_fit(&preds, 1, &vec![0, 1, 2], &vec![true, true, true], 3));
    assert!(!paths_fit(&preds, 3, &vec![0], &vec![true, true, true], 3));
    assert!(!paths_fit(&preds, 1, &vec![0, 2], &vec![true, true, true], 2));
    assert!(!paths_fit(&preds, 1, &vec![0], &vec![true, true], 3));
}

#[test]
fn new_links_join_named_nodes_that_name_back_and_drop_the_rest() {
    // Node 0 (id 10) now links to 11 (which names it back), 12 (which does
    // not) and 20 (unknown); its current neighbours are 1 (id 11) and 3 (id 13).
    let nodes = vec![
        Some(node(10, 1, vec![11, 13])),
        Some(node(11, 1, vec![10])),
        Some(node(12, 1, vec![])),
        Some(node(13, 1, vec![10])),
    ];
    assert_eq!(
        edge_plan(&nodes, 0, &vec![pid(11), pid(12), pid(20)], &vec![1, 3]),
        EdgePlan { connect: vec![1], introduce: vec![pid(20)], disconnect: vec![3] }
    );
    assert_eq!(
        edge_plan(&nodes, 0, &vec![], &vec![]),
        EdgePlan { connect: vec![], introduce: vec![], disconnect: vec![] }
    );
}

#[test]
fn nodes_are_made_from_a_state_or_from_a_name_alone() {
    let r = ResolvedState { pid: pid(7), whatami: WhatAmI::Peer, locators: None, sn: 5, links: vec![pid(8)] };
    let n = Node::from_state(r);
    assert_eq!((n.pid, n.whatami, n.sn, n.links.clone()), (pid(7), Some(WhatAmI::Peer), 5, vec![pid(8)]));
    let m = Node::introduced(pid(9));
    assert_eq!((m.pid, m.whatami, m.locators, m.sn, m.links), (pid(9), None, None, 0, vec![]));
}
