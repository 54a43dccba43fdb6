use zenoh_net::routes::{interest_answer, routes_nowhere, InterestAnswer};
use zenoh_net::routes::{query_dispatch, QueryDispatch};
use zenoh_net::routes::{local_peer_qabl_info, local_qabl_info, local_router_qabl_info, NodeQabl, SessionQabl};
use zenoh_net::routes::{interest_declares_sub, linkstate_forgets, propagates_subscription, InterestCtx, InterestScope};
use zenoh_net::routes::{undeclare_plan, UndeclarePlan};
use zenoh_net::routes::{
    compute_final_route, data_route_plan, make_sub_id, matching_kind, merge_qabl_infos,
    query_route_plan, query_source, remote_simple_subs, remote_subs, session_receives_data,
    simple_subs, DataRoutePlan, FaceSubIds, QueryRoutePlan, QuerySource, QueryTarget,
    QueryableInfo, RouteTable, SessionContext, Target, TargetQabl, TreeSource, WhatAmI,
    ALL_KINDS,
};

fn ctx(face: usize, face_whatami: WhatAmI, subs: bool) -> SessionContext {
    SessionContext { face, face_whatami, subs }
}

fn qabl(face: usize, complete: u64, kind: u64) -> TargetQabl {
    TargetQabl { face, complete, kind }
}

#[test]
fn merged_queryable_is_complete_if_either_is_and_keeps_the_lesser_distance() {
    let a = QueryableInfo { complete: 0, distance: 7 };
    let b = QueryableInfo { complete: 1, distance: 3 };
    assert_eq!(merge_qabl_infos(a, &b), QueryableInfo { complete: 1, distance: 3 });
    assert_eq!(merge_qabl_infos(b, &a), QueryableInfo { complete: 1, distance: 3 });
    let c = QueryableInfo { complete: 0, distance: 2 };
    assert_eq!(merge_qabl_infos(a, &c), QueryableInfo { complete: 0, distance: 2 });
}

#[test]
fn merged_queryable_counts_any_completeness_as_one() {
    let a = QueryableInfo { complete: 5, distance: 1 };
    let b = QueryableInfo { complete: 0, distance: 1 };
    assert_eq!(merge_qabl_infos(a, &b).complete, 1);
}

#[test]
fn kinds_match_on_a_shared_bit_or_the_all_kinds_query() {
    assert!(matching_kind(ALL_KINDS, 0x40));
    assert!(matching_kind(0x06, 0x02));
    assert!(!matching_kind(0x04, 0x02));
    assert!(!matching_kind(0x00, 0x00));
}

#[test]
fn simple_subs_lists_the_subscribing_faces_in_order() {
    let ctxs = vec![
        ctx(3, WhatAmI::Client, true),
        ctx(5, WhatAmI::Peer, false),
        ctx(1, WhatAmI::Router, true),
    ];
    assert_eq!(simple_subs(&ctxs), vec![3, 1]);
    assert_eq!(simple_subs(&Vec::new()), Vec::<usize>::new());
}

#[test]
fn remote_simple_subs_ignores_the_asking_face() {
    let ctxs = vec![ctx(3, WhatAmI::Client, true), ctx(5, WhatAmI::Peer, false)];
    assert!(!remote_simple_subs(&ctxs, 3));
    assert!(remote_simple_subs(&ctxs, 5));
}

#[test]
fn remote_subs_needs_a_context_and_another_subscriber() {
    assert!(!remote_subs(false, &vec![1, 2], 1));
    assert!(!remote_subs(true, &vec![1, 1], 1));
    assert!(remote_subs(true, &vec![1, 2], 1));
    assert!(!remote_subs(true, &Vec::new(), 1));
}

#[test]
fn sub_id_is_zero_without_future_interest() {
    let mut face = FaceSubIds { local_subs: vec![(4, 9)], next_id: 10 };
    assert_eq!(make_sub_id(&mut face, 4, false), 0);
    assert_eq!(face.next_id, 10);
    assert_eq!(face.local_subs, vec![(4, 9)]);
}

#[test]
fn sub_id_is_reused_for_a_known_resource_and_given_anew_otherwise() {
    let mut face = FaceSubIds { local_subs: vec![(4, 9)], next_id: 10 };
    assert_eq!(make_sub_id(&mut face, 4, true), 9);
    assert_eq!(face.next_id, 10);
    assert_eq!(make_sub_id(&mut face, 7, true), 10);
    assert_eq!(face.next_id, 11);
    assert_eq!(face.local_subs, vec![(4, 9), (7, 10)]);
    assert_eq!(make_sub_id(&mut face, 7, true), 10);
}

#[test]
fn sub_id_counter_wraps_around() {
    let mut face = FaceSubIds { local_subs: Vec::new(), next_id: u32::MAX };
    assert_eq!(make_sub_id(&mut face, 1, true), u32::MAX);
    assert_eq!(face.next_id, 0);
}

#[test]
fn master_router_routes_data_over_both_trees_and_sessions() {
    let plan = data_route_plan(WhatAmI::Client, true, true);
    assert_eq!(
        plan,
        DataRoutePlan {
            routers: Some(TreeSource::Own),
            peers: Some(TreeSource::Own),
            sessions: true
        }
    );
}

#[test]
fn non_master_router_relays_router_data_on_the_router_tree_only() {
    let plan = data_route_plan(WhatAmI::Router, true, false);
    assert_eq!(
        plan,
        DataRoutePlan { routers: Some(TreeSource::Given), peers: None, sessions: true }
    );
    let plan = data_route_plan(WhatAmI::Peer, true, false);
    assert_eq!(
        plan,
        DataRoutePlan { routers: None, peers: Some(TreeSource::Given), sessions: false }
    );
}

#[test]
fn without_a_full_peer_network_no_peer_tree_is_used() {
    let plan = data_route_plan(WhatAmI::Peer, false, false);
    assert_eq!(
        plan,
        DataRoutePlan { routers: Some(TreeSource::Own), peers: None, sessions: true }
    );
}

#[test]
fn routers_do_not_receive_data_as_sessions() {
    assert!(session_receives_data(&ctx(1, WhatAmI::Client, true)));
    assert!(!session_receives_data(&ctx(1, WhatAmI::Router, true)));
    assert!(!session_receives_data(&ctx(1, WhatAmI::Peer, false)));
}

#[test]
fn query_route_plans_by_local_role() {
    assert_eq!(
        query_route_plan(WhatAmI::Router, WhatAmI::Router, false),
        QueryRoutePlan { routers: Some(TreeSource::Given), peers: None, sessions: true }
    );
    assert_eq!(
        query_route_plan(WhatAmI::Router, WhatAmI::Client, true),
        QueryRoutePlan {
            routers: Some(TreeSource::Own),
            peers: Some(TreeSource::Own),
            sessions: true
        }
    );
    assert_eq!(
        query_route_plan(WhatAmI::Peer, WhatAmI::Peer, false),
        QueryRoutePlan { routers: None, peers: Some(TreeSource::Given), sessions: true }
    );
    assert_eq!(
        query_route_plan(WhatAmI::Peer, WhatAmI::Client, false),
        QueryRoutePlan { routers: None, peers: Some(TreeSource::Own), sessions: true }
    );
    assert_eq!(
        query_route_plan(WhatAmI::Client, WhatAmI::Client, false),
        QueryRoutePlan { routers: None, peers: None, sessions: true }
    );
}

#[test]
fn query_source_tables() {
    assert_eq!(
        query_source(WhatAmI::Router, WhatAmI::Peer),
        QuerySource {
            table: RouteTable::Peers,
            from_context: true,
            source_type: WhatAmI::Peer
        }
    );
    assert_eq!(
        query_source(WhatAmI::Router, WhatAmI::Client),
        QuerySource {
            table: RouteTable::Routers,
            from_context: false,
            source_type: WhatAmI::Client
        }
    );
    assert_eq!(
        query_source(WhatAmI::Client, WhatAmI::Router),
        QuerySource {
            table: RouteTable::Client,
            from_context: false,
            source_type: WhatAmI::Client
        }
    );
}

#[test]
fn no_target_routes_nowhere() {
    let qabls = vec![qabl(1, 1, 1)];
    let target = QueryTarget { kind: ALL_KINDS, target: Target::Nothing };
    assert_eq!(compute_final_route(&qabls, 0, &target), Vec::<usize>::new());
}

#[test]
fn all_target_skips_the_source_face_and_repeated_faces() {
    let qabls = vec![qabl(1, 0, 2), qabl(0, 1, 2), qabl(1, 1, 2), qabl(2, 0, 4), qabl(3, 0, 2)];
    let target = QueryTarget { kind: 0x02, target: Target::All };
    assert_eq!(compute_final_route(&qabls, 0, &target), vec![0, 4]);
}

#[test]
fn all_complete_target_keeps_complete_queryables_only() {
    let qabls = vec![qabl(1, 0, 2), qabl(1, 1, 2), qabl(2, 3, 2), qabl(2, 1, 2)];
    let target = QueryTarget { kind: ALL_KINDS, target: Target::AllComplete };
    assert_eq!(compute_final_route(&qabls, 0, &target), vec![1, 2]);
}

#[test]
fn best_matching_takes_the_first_complete_queryable() {
    let qabls = vec![qabl(1, 0, 2), qabl(2, 1, 2), qabl(3, 1, 2)];
    let target = QueryTarget { kind: ALL_KINDS, target: Target::BestMatching };
    assert_eq!(compute_final_route(&qabls, 0, &target), vec![1]);
}

#[test]
fn best_matching_without_complete_queryables_goes_to_all() {
    let qabls = vec![qabl(1, 0, 2), qabl(2, 0, 2), qabl(1, 0, 2)];
    let target = QueryTarget { kind: ALL_KINDS, target: Target::BestMatching };
    assert_eq!(compute_final_route(&qabls, 0, &target), vec![0, 1]);
}

fn ictx(face: usize, face_whatami: WhatAmI, subs: bool, brokered: bool) -> InterestCtx {
    InterestCtx { face, face_whatami, subs, brokered }
}

#[test]
fn an_interest_needs_a_context_and_a_match() {
    let others = vec![2u128];
    assert!(!interest_declares_sub(InterestScope::Each, false, true, &others, &vec![], 1, &vec![], 0, WhatAmI::Client));
    assert!(!interest_declares_sub(InterestScope::Each, true, false, &others, &vec![], 1, &vec![], 0, WhatAmI::Client));
    assert!(interest_declares_sub(InterestScope::All, true, false, &others, &vec![], 1, &vec![], 0, WhatAmI::Client));
    assert!(!interest_declares_sub(InterestScope::All, true, true, &vec![1], &vec![1], 1, &vec![], 0, WhatAmI::Client));
}

#[test]
fn sessions_answer_an_interest_by_scope() {
    let peer_ctx = vec![ictx(5, WhatAmI::Peer, true, false)];
    // Aggregated: any other subscribing face.
    assert!(interest_declares_sub(InterestScope::Aggregate, true, true, &vec![], &vec![], 1, &peer_ctx, 0, WhatAmI::Peer));
    assert!(!interest_declares_sub(InterestScope::Aggregate, true, true, &vec![], &vec![], 1, &peer_ctx, 5, WhatAmI::Peer));
    // One by one: a peer session only when brokered, or when a client is involved.
    assert!(!interest_declares_sub(InterestScope::Each, true, true, &vec![], &vec![], 1, &peer_ctx, 0, WhatAmI::Peer));
    assert!(interest_declares_sub(InterestScope::Each, true, true, &vec![], &vec![], 1, &peer_ctx, 0, WhatAmI::Client));
    let brokered = vec![ictx(5, WhatAmI::Peer, true, true)];
    assert!(interest_declares_sub(InterestScope::Each, true, true, &vec![], &vec![], 1, &brokered, 0, WhatAmI::Peer));
    // Every resource: the interested face's own session counts too.
    assert!(interest_declares_sub(InterestScope::All, true, false, &vec![], &vec![], 1, &brokered, 5, WhatAmI::Peer));
    assert!(!interest_declares_sub(InterestScope::All, true, false, &vec![], &vec![], 1, &peer_ctx, 5, WhatAmI::Peer));
    assert!(interest_declares_sub(InterestScope::All, true, false, &vec![], &vec![], 1, &peer_ctx, 5, WhatAmI::Client));
}

fn nq(node: u128, kind: u64, complete: u64, distance: u64) -> NodeQabl {
    NodeQabl { node, kind, info: QueryableInfo { complete, distance } }
}

fn sq(face: usize, info: Option<(u64, u64)>) -> SessionQabl {
    SessionQabl { face, info: info.map(|(complete, distance)| QueryableInfo { complete, distance }) }
}

#[test]
fn local_information_merges_other_nodes_and_sessions_of_the_kind() {
    let peers = vec![nq(1, 1, 1, 5), nq(2, 1, 0, 7), nq(3, 2, 1, 1)];
    let sessions = vec![sq(4, Some((0, 3))), sq(5, None)];
    assert_eq!(
        local_router_qabl_info(&peers, &sessions, 1, 1),
        QueryableInfo { complete: 0, distance: 3 }
    );
}

#[test]
fn a_single_queryable_is_taken_as_it_is() {
    assert_eq!(
        local_router_qabl_info(&vec![nq(2, 1, 5, 9)], &vec![], 1, 1),
        QueryableInfo { complete: 5, distance: 9 }
    );
    assert_eq!(
        local_router_qabl_info(&vec![], &vec![], 1, 1),
        QueryableInfo { complete: 0, distance: 0 }
    );
}

#[test]
fn peers_see_router_queryables_only_on_a_router() {
    let routers = vec![nq(2, 1, 1, 1)];
    let sessions = vec![sq(4, Some((0, 3)))];
    assert_eq!(
        local_peer_qabl_info(true, &routers, &sessions, 1, 1),
        QueryableInfo { complete: 1, distance: 1 }
    );
    assert_eq!(
        local_peer_qabl_info(false, &routers, &sessions, 1, 1),
        QueryableInfo { complete: 0, distance: 3 }
    );
}

#[test]
fn the_face_asking_is_left_out_of_its_own_information() {
    let routers = vec![nq(2, 1, 1, 10)];
    let peers = vec![nq(3, 1, 0, 4)];
    let sessions = vec![sq(7, Some((0, 2))), sq(8, Some((0, 1)))];
    assert_eq!(
        local_qabl_info(true, &routers, &peers, &sessions, 1, 1, 8),
        QueryableInfo { complete: 1, distance: 2 }
    );
    assert_eq!(
        local_qabl_info(false, &routers, &peers, &sessions, 1, 1, 7),
        QueryableInfo { complete: 0, distance: 1 }
    );
}

#[test]
fn subscriptions_propagate_by_face_kind() {
    let p = propagates_subscription;
    assert!(!p(1, WhatAmI::Client, 1, WhatAmI::Client, false, false, false));
    assert!(!p(1, WhatAmI::Client, 2, WhatAmI::Client, true, false, false));
    assert!(p(1, WhatAmI::Peer, 2, WhatAmI::Client, false, true, false));
    assert!(!p(1, WhatAmI::Peer, 2, WhatAmI::Peer, false, true, true));
    assert!(!p(1, WhatAmI::Client, 2, WhatAmI::Router, false, false, false));
    assert!(!p(1, WhatAmI::Peer, 2, WhatAmI::Peer, false, false, false));
    assert!(p(1, WhatAmI::Peer, 2, WhatAmI::Peer, false, false, true));
    assert!(p(1, WhatAmI::Client, 2, WhatAmI::Peer, false, false, false));
}

#[test]
fn a_linkstate_change_forgets_unbrokered_subscriptions() {
    // Only the changed peer itself subscribes: forgotten.
    assert!(linkstate_forgets(false, &vec![ictx(3, WhatAmI::Peer, true, true)], 3));
    // A router elsewhere still subscribes.
    assert!(!linkstate_forgets(true, &vec![], 3));
    // A client subscribes.
    assert!(!linkstate_forgets(false, &vec![ictx(4, WhatAmI::Client, true, false)], 3));
    // A client context without a subscription keeps nothing.
    assert!(linkstate_forgets(false, &vec![ictx(4, WhatAmI::Client, false, false)], 3));
    // Another peer this router still brokers to subscribes.
    assert!(!linkstate_forgets(false, &vec![ictx(5, WhatAmI::Peer, true, true)], 3));
    // Another peer, no longer brokered.
    assert!(linkstate_forgets(false, &vec![ictx(5, WhatAmI::Peer, true, false)], 3));
    assert!(linkstate_forgets(false, &vec![], 3));
}

#[test]
fn a_router_withdraws_only_when_no_client_nor_peer_remains() {
    assert_eq!(
        undeclare_plan(WhatAmI::Router, 0, false, false),
        UndeclarePlan { withdraw: true, forget_last_client: false }
    );
    assert_eq!(
        undeclare_plan(WhatAmI::Router, 0, true, true),
        UndeclarePlan { withdraw: false, forget_last_client: false }
    );
    assert_eq!(
        undeclare_plan(WhatAmI::Router, 0, true, false),
        UndeclarePlan { withdraw: true, forget_last_client: false }
    );
}

#[test]
fn peers_and_clients_withdraw_when_no_client_remains() {
    assert!(undeclare_plan(WhatAmI::Peer, 0, false, true).withdraw);
    assert!(undeclare_plan(WhatAmI::Client, 0, true, true).withdraw);
    assert!(!undeclare_plan(WhatAmI::Peer, 2, false, false).withdraw);
}

#[test]
fn the_last_client_forgets_only_when_alone() {
    assert_eq!(
        undeclare_plan(WhatAmI::Router, 1, false, false),
        UndeclarePlan { withdraw: false, forget_last_client: true }
    );
    assert!(!undeclare_plan(WhatAmI::Router, 1, true, false).forget_last_client);
    assert!(!undeclare_plan(WhatAmI::Peer, 1, false, true).forget_last_client);
    assert!(!undeclare_plan(WhatAmI::Peer, 2, false, false).forget_last_client);
}

#[test]
fn a_query_with_no_route_gets_a_final_reply() {
    assert_eq!(query_dispatch(true, &vec![], &vec![]), QueryDispatch { final_reply: true, sends: vec![] });
    assert_eq!(query_dispatch(false, &vec![3], &vec![7]), QueryDispatch { final_reply: true, sends: vec![] });
}

#[test]
fn a_query_goes_out_under_each_face_next_identifier() {
    assert_eq!(
        query_dispatch(true, &vec![3, 5], &vec![7, u64::MAX]),
        QueryDispatch { final_reply: false, sends: vec![(3, 8), (5, 0)] }
    );
}

#[test]
fn an_interest_is_answered_in_the_current_mode_only() {
    let d = vec![false, true, true];
    assert_eq!(interest_answer(false, InterestScope::Each, &d), InterestAnswer { aggregate: false, subs: vec![] });
    assert_eq!(interest_answer(true, InterestScope::Each, &d), InterestAnswer { aggregate: false, subs: vec![1, 2] });
    assert_eq!(interest_answer(true, InterestScope::All, &d), InterestAnswer { aggregate: false, subs: vec![1, 2] });
    assert_eq!(interest_answer(true, InterestScope::Aggregate, &d), InterestAnswer { aggregate: true, subs: vec![] });
    assert_eq!(
        interest_answer(true, InterestScope::Aggregate, &vec![false, false]),
        InterestAnswer { aggregate: false, subs: vec![] }
    );
}

#[test]
fn a_key_expression_ending_with_a_slash_routes_nowhere() {
    assert!(routes_nowhere("demo/"));
    assert!(routes_nowhere("/"));
    assert!(!routes_nowhere("demo/a"));
    assert!(!routes_nowhere(""));
    assert!(!routes_nowhere("é"));
}
