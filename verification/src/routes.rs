//! The decisions behind routing data and queries: which subscribers and
//! queryables a resource has, which trees a route is computed over, how
//! queryable information merges, and which queryables a query goes to.
use vstd::prelude::*;
use vstd::string::StrSliceExecFns;

verus! {

/// What a zenoh node is.
#[derive(Debug, Clone, Copy, PartialEq, Eq, Structural)]
pub enum WhatAmI {
    Router,
    Peer,
    Client,
}

/// The query kind that matches queryables of every kind.
pub const ALL_KINDS: u64 = 0x01;

/// What is known of the queryables of a resource: how many are complete
/// (0 or 1), and the least distance to one.
#[derive(Debug, Clone, Copy, PartialEq, Eq, Structural)]
pub struct QueryableInfo {
    pub complete: u64,
    pub distance: u64,
}

/// Merge the information of two queryables: complete if either is, at the
/// lesser of the two distances.
pub fn merge_qabl_infos(this: QueryableInfo, info: &QueryableInfo) -> (merged: QueryableInfo)
    ensures
        merged.complete == (if this.complete != 0 || info.complete != 0 { 1u64 } else { 0u64 }),
        merged.distance == (if this.distance <= info.distance { this.distance } else { info.distance }),
{
    let complete = if this.complete != 0 || info.complete != 0 {
        1
    } else {
        0
    };
    let distance = if this.distance <= info.distance {
        this.distance
    } else {
        info.distance
    };
    QueryableInfo { complete, distance }
}

/// A queryable a node registered on a resource: the node, the kind, and
/// what is known of it.
#[derive(Debug, Clone, Copy, PartialEq, Eq, Structural)]
pub struct NodeQabl {
    pub node: u128,
    pub kind: u64,
    pub info: QueryableInfo,
}

/// A session context of a resource seen for one kind: its face, and what it
/// declared of a queryable of that kind, if it did.
#[derive(Debug, Clone, Copy, PartialEq, Eq, Structural)]
pub struct SessionQabl {
    pub face: usize,
    pub info: Option<QueryableInfo>,
}

/// The information of the queryables of kind `kind` that nodes other than
/// `own` registered, in order.
pub open spec fn node_contribs(qs: Seq<NodeQabl>, own: u128, kind: u64) -> Seq<QueryableInfo>
    decreases qs.len(),
{
    if qs.len() == 0 {
        Seq::empty()
    } else {
        let rest = node_contribs(qs.drop_last(), own, kind);
        let q = qs.last();
        if q.node != own && q.kind == kind {
            rest.push(q.info)
        } else {
            rest
        }
    }
}

/// The information the session contexts declared, in order, leaving out
/// the face `except`, if any.
pub open spec fn session_contribs(ss: Seq<SessionQabl>, except: Option<usize>) -> Seq<QueryableInfo>
    decreases ss.len(),
{
    if ss.len() == 0 {
        Seq::empty()
    } else {
        let rest = session_contribs(ss.drop_last(), except);
        let c = ss.last();
        if c.info is Some && (except matches Some(f) ==> c.face != f) {
            rest.push(c.info->0)
        } else {
            rest
        }
    }
}

/// Whether some of the information says complete.
pub open spec fn any_complete(cs: Seq<QueryableInfo>) -> bool {
    exists|i: int| 0 <= i < cs.len() && #[trigger] cs[i].complete != 0
}

/// The least distance of some information, or 0 for none.
pub open spec fn min_distance(cs: Seq<QueryableInfo>) -> u64
    decreases cs.len(),
{
    if cs.len() == 0 {
        0
    } else if cs.len() == 1 {
        cs[0].distance
    } else {
        let m = min_distance(cs.drop_last());
        if m <= cs.last().distance {
            m
        } else {
            cs.last().distance
        }
    }
}

/// What a resource's queryables add up to, seen from this node: nothing
/// known is incomplete at distance 0; one piece of information is taken as
/// it is; several merge into complete (1) if any is, at the least distance.
pub open spec fn merged_info(cs: Seq<QueryableInfo>) -> QueryableInfo {
    if cs.len() == 0 {
        QueryableInfo { complete: 0, distance: 0 }
    } else if cs.len() == 1 {
        cs[0]
    } else {
        QueryableInfo { complete: if any_complete(cs) { 1 } else { 0 }, distance: min_distance(cs) }
    }
}

/// Fold the information of `cs` into `acc`, as a merge of each in turn.
fn fold_infos(acc: Option<QueryableInfo>, cs: &Vec<QueryableInfo>) -> (r: Option<QueryableInfo>)
    ensures
        ({
            let before: Seq<QueryableInfo> = match acc {
                Some(a) => seq![a],
                None => Seq::empty(),
            };
            r == (if before.len() + cs@.len() == 0 {
                None::<QueryableInfo>
            } else {
                Some(merged_info(before + cs@))
            })
        }),
{
    let ghost before: Seq<QueryableInfo> = match acc {
        Some(a) => seq![a],
        None => Seq::empty(),
    };
    let mut acc = acc;
    let mut i: usize = 0;
    while i < cs.len()
        invariant
            i <= cs@.len(),
            before.len() <= 1,
            acc == (if before.len() + i == 0 {
                None::<QueryableInfo>
            } else {
                Some(merged_info(before + cs@.take(i as int)))
            }),
        decreases cs@.len() - i,
    {
        let x = cs[i];
        let ghost prefix = before + cs@.take(i as int);
        let ghost next = before + cs@.take(i + 1);
        assert(next =~= prefix.push(x));
        assert(next.drop_last() =~= prefix);
        acc = Some(
            match acc {
                Some(a) => {
                    proof {
                        assert(prefix.len() >= 1);
                        assert(a == merged_info(prefix));
                        assert(next.len() >= 2);
                        assert(next.last() == x);
                        assert(min_distance(next) == (if min_distance(prefix) <= x.distance {
                            min_distance(prefix)
                        } else {
                            x.distance
                        }));
                        assert(a.distance == min_distance(prefix));
                        if prefix.len() == 1 {
                            assert((a.complete != 0) == any_complete(prefix)) by {
                                if a.complete != 0 {
                                    assert(prefix[0].complete != 0);
                                }
                            }
                        }
                        assert((a.complete != 0) == any_complete(prefix));
                        if prefix.len() == 1 {
                            assert(any_complete(next) == (prefix[0].complete != 0 || x.complete != 0)) by {
                                if prefix[0].complete != 0 {
                                    assert(next[0] == prefix[0]);
                                }
                                if x.complete != 0 {
                                    assert(next[1] == x);
                                }
                            }
                        } else {
                            assert(any_complete(next) == (any_complete(prefix) || x.complete != 0)) by {
                                if any_complete(prefix) {
                                    let j = choose|j: int| 0 <= j < prefix.len() && #[trigger] prefix[j].complete != 0;
                                    assert(next[j] == prefix[j]);
                                }
                                if x.complete != 0 {
                                    assert(next[prefix.len() as int] == x);
                                }
                                if any_complete(next) {
                                    let j = choose|j: int| 0 <= j < next.len() && #[trigger] next[j].complete != 0;
                                    if j < prefix.len() {
                                        assert(prefix[j] == next[j]);
                                    }
                                }
                            }
                        }
                    }
                    merge_qabl_infos(a, &x)
                },
                None => {
                    proof {
                        assert(next =~= seq![x]);
                    }
                    x
                },
            },
        );
        i = i + 1;
    }
    assert(cs@.take(cs@.len() as int) =~= cs@);
    acc
}

/// The information of the queryables of kind `kind` that nodes other than
/// `own` registered, in order.
fn node_infos(qs: &Vec<NodeQabl>, own: u128, kind: u64) -> (r: Vec<QueryableInfo>)
    ensures
        r@ == node_contribs(qs@, own, kind),
{
    let mut r: Vec<QueryableInfo> = Vec::new();
    let mut i: usize = 0;
    while i < qs.len()
        invariant
            i <= qs@.len(),
            r@ == node_contribs(qs@.take(i as int), own, kind),
        decreases qs@.len() - i,
    {
        assert(qs@.take(i + 1).drop_last() =~= qs@.take(i as int));
        if qs[i].node != own && qs[i].kind == kind {
            r.push(qs[i].info);
        }
        i = i + 1;
    }
    assert(qs@.take(qs@.len() as int) =~= qs@);
    r
}

/// The information the session contexts declared, in order, leaving out
/// the face `except`, if any.
fn session_infos(ss: &Vec<SessionQabl>, except: Option<usize>) -> (r: Vec<QueryableInfo>)
    ensures
        r@ == session_contribs(ss@, except),
{
    let mut r: Vec<QueryableInfo> = Vec::new();
    let mut i: usize = 0;
    while i < ss.len()
        invariant
            i <= ss@.len(),
            r@ == session_contribs(ss@.take(i as int), except),
        decreases ss@.len() - i,
    {
        assert(ss@.take(i + 1).drop_last() =~= ss@.take(i as int));
        let c = ss[i];
        let kept = match except {
            Some(f) => c.face != f,
            None => true,
        };
        if kept {
            if let Some(info) = c.info {
                r.push(info);
            }
        }
        i = i + 1;
    }
    assert(ss@.take(ss@.len() as int) =~= ss@);
    r
}

/// What the queryables of kind `kind` on a resource add up to, for a
/// router to declare on its own behalf: those that link-state peers other
/// than `own` registered, then those the sessions declared.
pub fn local_router_qabl_info(
    peer_qabls: &Vec<NodeQabl>,
    sessions: &Vec<SessionQabl>,
    own: u128,
    kind: u64,
) -> (info: QueryableInfo)
    ensures
        info == merged_info(node_contribs(peer_qabls@, own, kind) + session_contribs(sessions@, None)),
{
    let first = fold_infos(None, &node_infos(peer_qabls, own, kind));
    let all = fold_infos(first, &session_infos(sessions, None));
    proof {
        let a = node_contribs(peer_qabls@, own, kind);
        let b = session_contribs(sessions@, None);
        lemma_merged_info_refold(a, b);
    }
    match all {
        Some(info) => info,
        None => QueryableInfo { complete: 0, distance: 0 },
    }
}

/// What the queryables of kind `kind` on a resource add up to, for a node
/// to declare to peers: on a router, those that routers other than `own`
/// registered, then, on any node, those the sessions declared.
pub fn local_peer_qabl_info(
    is_router: bool,
    router_qabls: &Vec<NodeQabl>,
    sessions: &Vec<SessionQabl>,
    own: u128,
    kind: u64,
) -> (info: QueryableInfo)
    ensures
        info == merged_info(
            (if is_router { node_contribs(router_qabls@, own, kind) } else { Seq::empty() })
                + session_contribs(sessions@, None),
        ),
{
    let routers = if is_router {
        node_infos(router_qabls, own, kind)
    } else {
        Vec::new()
    };
    let first = fold_infos(None, &routers);
    let all = fold_infos(first, &session_infos(sessions, None));
    proof {
        lemma_merged_info_refold(routers@, session_contribs(sessions@, None));
    }
    match all {
        Some(info) => info,
        None => QueryableInfo { complete: 0, distance: 0 },
    }
}

/// What the queryables of kind `kind` on a resource add up to, for a node
/// to declare to the face `face`: on a router, those that routers other
/// than `own` registered; then those that link-state peers other than `own`
/// registered; then those the sessions but `face`'s declared.
pub fn local_qabl_info(
    is_router: bool,
    router_qabls: &Vec<NodeQabl>,
    peer_qabls: &Vec<NodeQabl>,
    sessions: &Vec<SessionQabl>,
    own: u128,
    kind: u64,
    face: usize,
) -> (info: QueryableInfo)
    ensures
        info == merged_info(
            (if is_router { node_contribs(router_qabls@, own, kind) } else { Seq::empty() })
                + node_contribs(peer_qabls@, own, kind) + session_contribs(sessions@, Some(face)),
        ),
{
    let routers = if is_router {
        node_infos(router_qabls, own, kind)
    } else {
        Vec::new()
    };
    let peers = node_infos(peer_qabls, own, kind);
    let first = fold_infos(None, &routers);
    let second = fold_infos(first, &peers);
    let sess = session_infos(sessions, Some(face));
    let all = fold_infos(second, &sess);
    proof {
        lemma_merged_info_refold(routers@, peers@);
        lemma_merged_info_refold(routers@ + peers@, sess@);
    }
    match all {
        Some(info) => info,
        None => QueryableInfo { complete: 0, distance: 0 },
    }
}

/// Folding the merge of one list into the fold of another merges the two
/// lists: only whether anything is complete, and the least distance, carry
/// over, and the merge of one piece of information is that piece.
proof fn lemma_merged_info_refold(a: Seq<QueryableInfo>, b: Seq<QueryableInfo>)
    ensures
        ({
            let before: Seq<QueryableInfo> = if a.len() == 0 {
                Seq::empty()
            } else {
                seq![merged_info(a)]
            };
            &&& before.len() + b.len() == 0 <==> (a + b).len() == 0
            &&& before.len() + b.len() > 0 ==> merged_info(before + b) == merged_info(a + b)
        }),
{
    if a.len() > 0 && b.len() > 0 {
        let m = merged_info(a);
        let before = seq![m];
        lemma_min_distance_concat(a, b);
        lemma_min_distance_concat(before, b);
        lemma_any_complete_concat(a, b);
        lemma_any_complete_concat(before, b);
        assert(any_complete(before) == (m.complete != 0)) by {
            if m.complete != 0 {
                assert(before[0].complete != 0);
            }
        }
        if a.len() == 1 {
            assert(any_complete(a) == (a[0].complete != 0)) by {
                if a[0].complete != 0 {
                    assert(a[0].complete != 0);
                }
            }
        }
        assert(min_distance(before) == m.distance);
    } else if a.len() > 0 {
        assert(a + b =~= a);
        assert(seq![merged_info(a)] + b =~= seq![merged_info(a)]);
    } else {
        assert(a + b =~= b);
        assert(Seq::<QueryableInfo>::empty() + b =~= b);
    }
}

/// The least distance of some information is that of one of them, and no
/// more than any of theirs.
proof fn lemma_min_distance_is_least(cs: Seq<QueryableInfo>)
    requires
        cs.len() > 0,
    ensures
        forall|i: int| 0 <= i < cs.len() ==> min_distance(cs) <= #[trigger] cs[i].distance,
        exists|i: int| 0 <= i < cs.len() && #[trigger] cs[i].distance == min_distance(cs),
    decreases cs.len(),
{
    if cs.len() == 1 {
        assert(cs[0].distance == min_distance(cs));
    } else {
        let d = cs.drop_last();
        lemma_min_distance_is_least(d);
        assert forall|i: int| 0 <= i < cs.len() implies min_distance(cs) <= #[trigger] cs[i].distance by {
            if i < d.len() {
                assert(d[i] == cs[i]);
            }
        }
        if min_distance(d) <= cs.last().distance {
            let j = choose|j: int| 0 <= j < d.len() && #[trigger] d[j].distance == min_distance(d);
            assert(cs[j] == d[j]);
        } else {
            assert(cs[cs.len() - 1].distance == min_distance(cs));
        }
    }
}

/// What a resource's queryables add up to does not depend on the order in
/// which they are met: information that holds the same pieces, each as often,
/// merges the same.
pub proof fn lemma_merged_info_order(a: Seq<QueryableInfo>, b: Seq<QueryableInfo>)
    requires
        a.to_multiset() == b.to_multiset(),
    ensures
        merged_info(a) == merged_info(b),
{
    a.to_multiset_ensures();
    b.to_multiset_ensures();
    assert(a.len() == b.len());
    assert forall|x: QueryableInfo| a.contains(x) <==> b.contains(x) by {
        assert(a.contains(x) <==> a.to_multiset().count(x) > 0);
        assert(b.contains(x) <==> b.to_multiset().count(x) > 0);
    }
    if a.len() == 1 {
        assert(a.contains(a[0]));
        assert(b.contains(a[0]));
    } else if a.len() > 1 {
        assert(any_complete(a) == any_complete(b)) by {
            if any_complete(a) {
                let j = choose|j: int| 0 <= j < a.len() && #[trigger] a[j].complete != 0;
                assert(a.contains(a[j]));
                assert(b.contains(a[j]));
            }
            if any_complete(b) {
                let j = choose|j: int| 0 <= j < b.len() && #[trigger] b[j].complete != 0;
                assert(b.contains(b[j]));
                assert(a.contains(b[j]));
            }
        }
        lemma_min_distance_is_least(a);
        lemma_min_distance_is_least(b);
        let ja = choose|j: int| 0 <= j < a.len() && #[trigger] a[j].distance == min_distance(a);
        let jb = choose|j: int| 0 <= j < b.len() && #[trigger] b[j].distance == min_distance(b);
        assert(a.contains(a[ja]) && b.contains(a[ja]));
        assert(b.contains(b[jb]) && a.contains(b[jb]));
        let ka = choose|k: int| 0 <= k < b.len() && b[k] == a[ja];
        let kb = choose|k: int| 0 <= k < a.len() && a[k] == b[jb];
        assert(min_distance(b) <= b[ka].distance);
        assert(min_distance(a) <= a[kb].distance);
    }
}

/// The least distance of two lists put together is the lesser of theirs.
proof fn lemma_min_distance_concat(x: Seq<QueryableInfo>, y: Seq<QueryableInfo>)
    requires
        x.len() > 0,
        y.len() > 0,
    ensures
        min_distance(x + y) == (if min_distance(x) <= min_distance(y) {
            min_distance(x)
        } else {
            min_distance(y)
        }),
    decreases y.len(),
{
    if y.len() == 1 {
        assert((x + y).drop_last() =~= x);
        assert((x + y).last() == y[0]);
    } else {
        lemma_min_distance_concat(x, y.drop_last());
        assert((x + y).drop_last() =~= x + y.drop_last());
        assert((x + y).last() == y.last());
    }
}

/// Something of two lists put together is complete when something of one
/// of them is.
proof fn lemma_any_complete_concat(x: Seq<QueryableInfo>, y: Seq<QueryableInfo>)
    ensures
        any_complete(x + y) == (any_complete(x) || any_complete(y)),
{
    if any_complete(x) {
        let j = choose|j: int| 0 <= j < x.len() && #[trigger] x[j].complete != 0;
        assert((x + y)[j] == x[j]);
    }
    if any_complete(y) {
        let j = choose|j: int| 0 <= j < y.len() && #[trigger] y[j].complete != 0;
        assert((x + y)[x.len() + j] == y[j]);
    }
    if any_complete(x + y) {
        let j = choose|j: int| 0 <= j < (x + y).len() && #[trigger] (x + y)[j].complete != 0;
        if j < x.len() {
            assert(x[j] == (x + y)[j]);
        } else {
            assert(y[j - x.len()] == (x + y)[j]);
        }
    }
}

/// Whether a query of one kind is answered by a queryable of another: a
/// query of every kind matches all, otherwise the kinds must share a bit.
pub open spec fn spec_matching_kind(query_kind: u64, qabl_kind: u64) -> bool {
    (query_kind & ALL_KINDS) != 0 || (query_kind & qabl_kind) != 0
}

pub fn matching_kind(query_kind: u64, qabl_kind: u64) -> (b: bool)
    ensures
        b == spec_matching_kind(query_kind, qabl_kind),
{
    (query_kind & ALL_KINDS) != 0 || (query_kind & qabl_kind) != 0
}

// ---------------------------------------------------------------------------
// Sessions of a resource
// ---------------------------------------------------------------------------

/// What one face has declared on a resource.
#[derive(Debug, Clone, Copy, PartialEq, Eq, Structural)]
pub struct SessionContext {
    /// The face's identifier.
    pub face: usize,
    /// What the node behind the face is.
    pub face_whatami: WhatAmI,
    /// Whether the face subscribes to the resource.
    pub subs: bool,
}

/// The faces, in order, of the contexts that subscribe.
pub open spec fn spec_simple_subs(ctxs: Seq<SessionContext>) -> Seq<usize>
    decreases ctxs.len(),
{
    if ctxs.len() == 0 {
        Seq::empty()
    } else {
        let rest = spec_simple_subs(ctxs.drop_last());
        if ctxs.last().subs { rest.push(ctxs.last().face) } else { rest }
    }
}

/// The faces that subscribe to a resource.
pub fn simple_subs(ctxs: &Vec<SessionContext>) -> (faces: Vec<usize>)
    ensures
        faces@ == spec_simple_subs(ctxs@),
{
    let mut faces: Vec<usize> = Vec::new();
    let mut i: usize = 0;
    while i < ctxs.len()
        invariant
            i <= ctxs@.len(),
            faces@ == spec_simple_subs(ctxs@.take(i as int)),
        decreases ctxs@.len() - i,
    {
        assert(ctxs@.take(i + 1).drop_last() =~= ctxs@.take(i as int));
        if ctxs[i].subs {
            faces.push(ctxs[i].face);
        }
        i = i + 1;
    }
    assert(ctxs@.take(ctxs@.len() as int) =~= ctxs@);
    faces
}

/// Whether a face other than `face` subscribes to the resource.
pub fn remote_simple_subs(ctxs: &Vec<SessionContext>, face: usize) -> (b: bool)
    ensures
        b == exists|i: int| 0 <= i < ctxs@.len() && ctxs@[i].face != face && #[trigger] ctxs@[i].subs,
{
    let mut i: usize = 0;
    while i < ctxs.len()
        invariant
            i <= ctxs@.len(),
            forall|j: int| 0 <= j < i ==> !(ctxs@[j].face != face && #[trigger] ctxs@[j].subs),
        decreases ctxs@.len() - i,
    {
        if ctxs[i].face != face && ctxs[i].subs {
            return true;
        }
        i = i + 1;
    }
    false
}

/// Whether the resource has a routing context and a subscriber other than
/// this node among the given ones.
pub fn remote_subs(has_context: bool, subs: &Vec<u128>, own: u128) -> (b: bool)
    ensures
        b == (has_context && exists|i: int| 0 <= i < subs@.len() && #[trigger] subs@[i] != own),
{
    if !has_context {
        return false;
    }
    let mut i: usize = 0;
    while i < subs.len()
        invariant
            i <= subs@.len(),
            has_context,
            forall|j: int| 0 <= j < i ==> #[trigger] subs@[j] == own,
        decreases subs@.len() - i,
    {
        if subs[i] != own {
            assert(subs@[i as int] != own);
            return true;
        }
        i = i + 1;
    }
    false
}

/// The subscriber identifiers a face has given out, by resource, and the next
/// one to give.
#[derive(Debug, Clone)]
pub struct FaceSubIds {
    pub local_subs: Vec<(usize, u32)>,
    pub next_id: u32,
}

/// The identifier recorded for a resource, if any.
pub open spec fn spec_sub_id_of(local_subs: Seq<(usize, u32)>, res: usize) -> Option<u32>
    decreases local_subs.len(),
{
    if local_subs.len() == 0 {
        None
    } else if local_subs[0].0 == res {
        Some(local_subs[0].1)
    } else {
        spec_sub_id_of(local_subs.drop_first(), res)
    }
}

/// The identifier a face uses to declare a subscription to a resource: 0 for
/// an interest in the current state only; otherwise the identifier already
/// given for the resource, or the next one, recorded for the resource.
pub fn make_sub_id(face: &mut FaceSubIds, res: usize, future: bool) -> (id: u32)
    ensures
        !future ==> id == 0 && final(face).local_subs@ == old(face).local_subs@ && final(face).next_id
            == old(face).next_id,
        future ==> match spec_sub_id_of(old(face).local_subs@, res) {
            Some(known) => id == known && final(face).local_subs@ == old(face).local_subs@
                && final(face).next_id == old(face).next_id,
            None => id == old(face).next_id && final(face).local_subs@ == old(face).local_subs@.push(
                (res, id),
            ) && final(face).next_id == (if old(face).next_id == u32::MAX {
                0
            } else {
                (old(face).next_id + 1) as u32
            }),
        },
{
    if !future {
        return 0;
    }
    let mut i: usize = 0;
    assert(face.local_subs@.skip(0) =~= face.local_subs@);
    while i < face.local_subs.len()
        invariant
            i <= face.local_subs@.len(),
            future,
            face.local_subs@ == old(face).local_subs@,
            face.next_id == old(face).next_id,
            spec_sub_id_of(face.local_subs@, res) == spec_sub_id_of(face.local_subs@.skip(i as int), res),
        decreases face.local_subs@.len() - i,
    {
        let ghost rest = face.local_subs@.skip(i as int);
        assert(rest.drop_first() =~= face.local_subs@.skip(i + 1));
        if face.local_subs[i].0 == res {
            return face.local_subs[i].1;
        }
        i = i + 1;
    }
    assert(face.local_subs@.skip(i as int) =~= Seq::<(usize, u32)>::empty());
    let id = face.next_id;
    face.next_id = if id == u32::MAX {
        0
    } else {
        id + 1
    };
    face.local_subs.push((res, id));
    id
}

// ---------------------------------------------------------------------------
// Answering an interest in subscriptions
// ---------------------------------------------------------------------------

/// How a face's interest in subscriptions is scoped: on one resource,
/// answered with one aggregated declaration; on one resource, answered
/// subscription by subscription; or on every resource.
#[derive(Debug, Clone, Copy, PartialEq, Eq, Structural)]
pub enum InterestScope {
    Aggregate,
    Each,
    All,
}

/// What one session context of a subscription says to a face that shows
/// interest.
#[derive(Debug, Clone, Copy, PartialEq, Eq, Structural)]
pub struct InterestCtx {
    /// The context's face.
    pub face: usize,
    /// What the node behind the context's face is.
    pub face_whatami: WhatAmI,
    /// Whether that face subscribes.
    pub subs: bool,
    /// Whether this router brokers, on failover, between the context's node
    /// and the interested one.
    pub brokered: bool,
}

/// Whether one session context makes a subscription worth declaring to the
/// interested face `face`, of kind `face_whatami`.
pub open spec fn ctx_declares(scope: InterestScope, c: InterestCtx, face: usize, face_whatami: WhatAmI) -> bool {
    match scope {
        InterestScope::Aggregate => c.face != face && c.subs,
        InterestScope::Each => c.face != face && c.subs && (c.face_whatami == WhatAmI::Client
            || face_whatami == WhatAmI::Client || (c.face_whatami == WhatAmI::Peer && c.brokered)),
        InterestScope::All => c.subs && (c.face_whatami != WhatAmI::Peer || face_whatami
            != WhatAmI::Peer || c.brokered),
    }
}

/// Whether a router subscription is declared to a face that shows interest:
/// it must have a routing context and, unless the interest is on every
/// resource, match the resource; and some other router or link-state peer
/// must subscribe, or a session context must make it worth declaring.
pub open spec fn spec_interest_declares(
    scope: InterestScope,
    has_context: bool,
    matches: bool,
    router_subs: Seq<u128>,
    peer_subs: Seq<u128>,
    own: u128,
    ctxs: Seq<InterestCtx>,
    face: usize,
    face_whatami: WhatAmI,
) -> bool {
    &&& has_context
    &&& (scope == InterestScope::All || matches)
    &&& {
        ||| exists|i: int| 0 <= i < router_subs.len() && #[trigger] router_subs[i] != own
        ||| exists|i: int| 0 <= i < peer_subs.len() && #[trigger] peer_subs[i] != own
        ||| exists|i: int|
            0 <= i < ctxs.len() && ctx_declares(scope, #[trigger] ctxs[i], face, face_whatami)
    }
}

/// A subscription that another router holds is declared to a face that
/// shows interest in it, whatever the sessions hold, as long as it has a
/// routing context and the interest covers it.
pub proof fn lemma_remote_router_sub_declared(
    scope: InterestScope,
    matches: bool,
    router_subs: Seq<u128>,
    peer_subs: Seq<u128>,
    own: u128,
    ctxs: Seq<InterestCtx>,
    face: usize,
    face_whatami: WhatAmI,
    i: int,
)
    requires
        scope == InterestScope::All || matches,
        0 <= i < router_subs.len(),
        router_subs[i] != own,
    ensures
        spec_interest_declares(scope, true, matches, router_subs, peer_subs, own, ctxs, face, face_whatami),
{
}

/// A subscription that another link-state peer holds is declared to a face
/// that shows interest in it, whatever the routers and sessions hold, as long
/// as it has a routing context and the interest covers it.
pub proof fn lemma_remote_peer_sub_declared(
    scope: InterestScope,
    matches: bool,
    router_subs: Seq<u128>,
    peer_subs: Seq<u128>,
    own: u128,
    ctxs: Seq<InterestCtx>,
    face: usize,
    face_whatami: WhatAmI,
    i: int,
)
    requires
        scope == InterestScope::All || matches,
        0 <= i < peer_subs.len(),
        peer_subs[i] != own,
    ensures
        spec_interest_declares(scope, true, matches, router_subs, peer_subs, own, ctxs, face, face_whatami),
{
}

/// A client's subscription on another face is declared to a face that shows
/// interest in it, as long as it has a routing context and the interest
/// covers it.
pub proof fn lemma_client_sub_declared(
    scope: InterestScope,
    matches: bool,
    router_subs: Seq<u128>,
    peer_subs: Seq<u128>,
    own: u128,
    ctxs: Seq<InterestCtx>,
    face: usize,
    face_whatami: WhatAmI,
    i: int,
)
    requires
        scope == InterestScope::All || matches,
        0 <= i < ctxs.len(),
        ctxs[i].face != face,
        ctxs[i].subs,
        ctxs[i].face_whatami == WhatAmI::Client,
    ensures
        spec_interest_declares(scope, true, matches, router_subs, peer_subs, own, ctxs, face, face_whatami),
{
    assert(ctx_declares(scope, ctxs[i], face, face_whatami));
}

/// Nothing is declared for a subscription without a routing context, nor
/// for one that a resource-scoped interest does not cover, nor when no other
/// router or link-state peer and no session subscribes.
pub proof fn lemma_undeclared_subs(
    scope: InterestScope,
    has_context: bool,
    matches: bool,
    router_subs: Seq<u128>,
    peer_subs: Seq<u128>,
    own: u128,
    ctxs: Seq<InterestCtx>,
    face: usize,
    face_whatami: WhatAmI,
)
    requires
        !has_context || (scope != InterestScope::All && !matches) || ({
            &&& forall|i: int| 0 <= i < router_subs.len() ==> #[trigger] router_subs[i] == own
            &&& forall|i: int| 0 <= i < peer_subs.len() ==> #[trigger] peer_subs[i] == own
            &&& forall|i: int| 0 <= i < ctxs.len() ==> !(#[trigger] ctxs[i]).subs
        }),
    ensures
        !spec_interest_declares(scope, has_context, matches, router_subs, peer_subs, own, ctxs, face, face_whatami),
{
}

fn ctx_declares_exec(scope: InterestScope, c: &InterestCtx, face: usize, face_whatami: WhatAmI) -> (b: bool)
    ensures
        b == ctx_declares(scope, *c, face, face_whatami),
{
    match scope {
        InterestScope::Aggregate => c.face != face && c.subs,
        InterestScope::Each => c.face != face && c.subs && (c.face_whatami == WhatAmI::Client
            || face_whatami == WhatAmI::Client || (c.face_whatami == WhatAmI::Peer && c.brokered)),
        InterestScope::All => c.subs && (c.face_whatami != WhatAmI::Peer || face_whatami
            != WhatAmI::Peer || c.brokered),
    }
}

/// Whether a router subscription is declared to a face that shows interest
/// in it, as [`spec_interest_declares`] says; `matches` is whether the
/// subscription's key expression matches the resource of the interest.
pub fn interest_declares_sub(
    scope: InterestScope,
    has_context: bool,
    matches: bool,
    router_subs: &Vec<u128>,
    peer_subs: &Vec<u128>,
    own: u128,
    ctxs: &Vec<InterestCtx>,
    face: usize,
    face_whatami: WhatAmI,
) -> (b: bool)
    ensures
        b == spec_interest_declares(
            scope,
            has_context,
            matches,
            router_subs@,
            peer_subs@,
            own,
            ctxs@,
            face,
            face_whatami,
        ),
{
    let scoped = match scope {
        InterestScope::All => true,
        _ => matches,
    };
    if !has_context || !scoped {
        return false;
    }
    if remote_subs(true, router_subs, own) || remote_subs(true, peer_subs, own) {
        return true;
    }
    let mut i: usize = 0;
    while i < ctxs.len()
        invariant
            i <= ctxs@.len(),
            has_context,
            scope == InterestScope::All || matches,
            forall|j: int| 0 <= j < i ==> !ctx_declares(scope, #[trigger] ctxs@[j], face, face_whatami),
        decreases ctxs@.len() - i,
    {
        if ctx_declares_exec(scope, &ctxs[i], face, face_whatami) {
            assert(ctx_declares(scope, ctxs@[i as int], face, face_whatami));
            return true;
        }
        i = i + 1;
    }
    false
}

/// Whether a subscription that came in on face `src` is propagated to the
/// face `dst`: never back, nor where it was declared already; in a full
/// peer network only to clients; otherwise never to routers, and between two
/// peers only when this router brokers between them on failover.
pub open spec fn spec_propagates_subscription(
    src: usize,
    src_whatami: WhatAmI,
    dst: usize,
    dst_whatami: WhatAmI,
    dst_has_it: bool,
    full_peer_net: bool,
    brokered: bool,
) -> bool {
    &&& src != dst
    &&& !dst_has_it
    &&& if full_peer_net {
        dst_whatami == WhatAmI::Client
    } else {
        dst_whatami != WhatAmI::Router && (src_whatami != WhatAmI::Peer || dst_whatami
            != WhatAmI::Peer || brokered)
    }
}

/// Whether a subscription that came in on face `src` is propagated to the
/// face `dst`, as [`spec_propagates_subscription`] says.
pub fn propagates_subscription(
    src: usize,
    src_whatami: WhatAmI,
    dst: usize,
    dst_whatami: WhatAmI,
    dst_has_it: bool,
    full_peer_net: bool,
    brokered: bool,
) -> (b: bool)
    ensures
        b == spec_propagates_subscription(
            src,
            src_whatami,
            dst,
            dst_whatami,
            dst_has_it,
            full_peer_net,
            brokered,
        ),
{
    src != dst && !dst_has_it && if full_peer_net {
        dst_whatami == WhatAmI::Client
    } else {
        dst_whatami != WhatAmI::Router && (src_whatami != WhatAmI::Peer || dst_whatami
            != WhatAmI::Peer || brokered)
    }
}

/// What is left to do on a resource once a face withdrew its subscription,
/// or its queryable of one kind.
#[derive(Debug, Clone, Copy, PartialEq, Eq, Structural)]
pub struct UndeclarePlan {
    /// Whether this node withdraws its own declaration: as a router, as a
    /// peer, or towards its sessions, by what the node is. Otherwise the
    /// declaration stays (a queryable's is declared anew, with what remains).
    pub withdraw: bool,
    /// Whether the one client that still declares it is told to forget this
    /// node's declaration, which only it would now answer.
    pub forget_last_client: bool,
}

/// Whether a node of kind `local` withdraws its own declaration of a resource
/// once `remaining_clients` clients still declare it; a router keeps it while
/// a link-state peer does.
pub open spec fn spec_withdraws(local: WhatAmI, remaining_clients: nat, peer_remote: bool) -> bool {
    match local {
        WhatAmI::Router => remaining_clients == 0 && !peer_remote,
        _ => remaining_clients == 0,
    }
}

/// Whether the one remaining client is told to forget the declaration: it is
/// alone, and no router nor link-state peer elsewhere declares it.
pub open spec fn spec_forgets_last_client(remaining_clients: nat, router_remote: bool, peer_remote: bool) -> bool {
    remaining_clients == 1 && !router_remote && !peer_remote
}

/// What a node of kind `local` does once a face withdrew its declaration on a
/// resource, where `remaining_clients` clients still declare it, and
/// `router_remote`, `peer_remote` say whether another router or link-state
/// peer does.
pub fn undeclare_plan(
    local: WhatAmI,
    remaining_clients: usize,
    router_remote: bool,
    peer_remote: bool,
) -> (plan: UndeclarePlan)
    ensures
        plan.withdraw == spec_withdraws(local, remaining_clients as nat, peer_remote),
        plan.forget_last_client == spec_forgets_last_client(
            remaining_clients as nat,
            router_remote,
            peer_remote,
        ),
{
    let withdraw = match local {
        WhatAmI::Router => remaining_clients == 0 && !peer_remote,
        _ => remaining_clients == 0,
    };
    UndeclarePlan {
        withdraw,
        forget_last_client: remaining_clients == 1 && !router_remote && !peer_remote,
    }
}

/// Whether a subscription that this router declared to the peer `src` is
/// forgotten when that peer's links change: no other router subscribes, no
/// client does, and no peer other than `src` does that this router still
/// brokers to over the new links (`brokered` of each context).
pub open spec fn spec_linkstate_forgets(remote_router_subs: bool, ctxs: Seq<InterestCtx>, src: usize) -> bool {
    &&& !remote_router_subs
    &&& forall|i: int|
        0 <= i < ctxs.len() ==> !(#[trigger] ctxs[i].face_whatami == WhatAmI::Client && ctxs[i].subs)
    &&& forall|i: int|
        0 <= i < ctxs.len() ==> !(#[trigger] ctxs[i].face_whatami == WhatAmI::Peer && ctxs[i].face
            != src && ctxs[i].brokered)
}

/// Whether a subscription declared to the peer `src` is forgotten when that
/// peer's links change, as [`spec_linkstate_forgets`] says.
pub fn linkstate_forgets(remote_router_subs: bool, ctxs: &Vec<InterestCtx>, src: usize) -> (b: bool)
    ensures
        b == spec_linkstate_forgets(remote_router_subs, ctxs@, src),
{
    if remote_router_subs {
        return false;
    }
    let mut i: usize = 0;
    while i < ctxs.len()
        invariant
            i <= ctxs@.len(),
            !remote_router_subs,
            forall|j: int|
                0 <= j < i ==> !(#[trigger] ctxs@[j].face_whatami == WhatAmI::Client && ctxs@[j].subs),
            forall|j: int|
                0 <= j < i ==> !(#[trigger] ctxs@[j].face_whatami == WhatAmI::Peer && ctxs@[j].face
                    != src && ctxs@[j].brokered),
        decreases ctxs@.len() - i,
    {
        let c = &ctxs[i];
        if c.face_whatami == WhatAmI::Client && c.subs {
            return false;
        }
        if c.face_whatami == WhatAmI::Peer && c.face != src && c.brokered {
            return false;
        }
        i = i + 1;
    }
    true
}

// ---------------------------------------------------------------------------
// Route plans
// ---------------------------------------------------------------------------

/// Which node a routing tree is taken from.
#[derive(Debug, Clone, Copy, PartialEq, Eq, Structural)]
pub enum TreeSource {
    /// The tree of the node the message came from.
    Given,
    /// This node's own tree.
    Own,
}

/// Over what a data route is computed.
#[derive(Debug, Clone, Copy, PartialEq, Eq, Structural)]
pub struct DataRoutePlan {
    /// The routers' tree, if routers' subscriptions are followed.
    pub routers: Option<TreeSource>,
    /// The link-state peers' tree, if their subscriptions are followed.
    pub peers: Option<TreeSource>,
    /// Whether directly connected non-router sessions are served.
    pub sessions: bool,
}

/// Plan a data route for data that came from a node of `source_type`.
///
/// A router that is not the master for the key expression only relays data
/// that came from a router onto the router tree, and data from elsewhere
/// onto the peer tree.
pub fn data_route_plan(source_type: WhatAmI, peers_full_net: bool, elected_is_self: bool) -> (plan:
    DataRoutePlan)
    ensures
        ({
            let master = !peers_full_net || elected_is_self;
            &&& plan.routers == (if master || source_type == WhatAmI::Router {
                Some(if source_type == WhatAmI::Router { TreeSource::Given } else { TreeSource::Own })
            } else {
                None::<TreeSource>
            })
            &&& plan.peers == (if (master || source_type != WhatAmI::Router) && peers_full_net {
                Some(if source_type == WhatAmI::Peer { TreeSource::Given } else { TreeSource::Own })
            } else {
                None::<TreeSource>
            })
            &&& plan.sessions == (master || source_type == WhatAmI::Router)
        }),
{
    let master = !peers_full_net || elected_is_self;
    let from_router = match source_type {
        WhatAmI::Router => true,
        _ => false,
    };
    let from_peer = match source_type {
        WhatAmI::Peer => true,
        _ => false,
    };
    let routers = if master || from_router {
        Some(if from_router { TreeSource::Given } else { TreeSource::Own })
    } else {
        None
    };
    let peers = if (master || !from_router) && peers_full_net {
        Some(if from_peer { TreeSource::Given } else { TreeSource::Own })
    } else {
        None
    };
    DataRoutePlan { routers, peers, sessions: master || from_router }
}

/// Whether a session with a subscription on the resource receives routed data:
/// every subscribing face but a router's, which the router tree serves.
pub fn session_receives_data(ctx: &SessionContext) -> (b: bool)
    ensures
        b == (ctx.subs && ctx.face_whatami != WhatAmI::Router),
{
    ctx.subs && match ctx.face_whatami {
        WhatAmI::Router => false,
        _ => true,
    }
}

/// Over what a query route is computed.
#[derive(Debug, Clone, Copy, PartialEq, Eq, Structural)]
pub struct QueryRoutePlan {
    /// The routers' tree, if routers' queryables are followed.
    pub routers: Option<TreeSource>,
    /// The peers' tree, if peers' queryables are followed.
    pub peers: Option<TreeSource>,
    /// Whether the queryables of directly connected sessions are served.
    pub sessions: bool,
}

/// Plan a query route on a node that is `local`, for a query that came from a
/// node of `source_type`; `elected_is_self` says whether this node is the
/// elected router for the key expression. A data route on such a node is
/// planned the same way, over the subscriptions in place of the queryables.
pub fn query_route_plan(local: WhatAmI, source_type: WhatAmI, elected_is_self: bool) -> (plan:
    QueryRoutePlan)
    ensures
        ({
            let master = local != WhatAmI::Router || elected_is_self;
            &&& plan.routers == (if local == WhatAmI::Router && (master || source_type
                == WhatAmI::Router) {
                Some(if source_type == WhatAmI::Router { TreeSource::Given } else { TreeSource::Own })
            } else {
                None::<TreeSource>
            })
            &&& plan.peers == (if local == WhatAmI::Router && (master || source_type
                != WhatAmI::Router) {
                Some(if source_type == WhatAmI::Peer { TreeSource::Given } else { TreeSource::Own })
            } else if local == WhatAmI::Peer {
                Some(if source_type != WhatAmI::Client { TreeSource::Given } else { TreeSource::Own })
            } else {
                None::<TreeSource>
            })
            &&& plan.sessions == (local != WhatAmI::Router || master || source_type == WhatAmI::Router)
        }),
{
    let is_router = match local {
        WhatAmI::Router => true,
        _ => false,
    };
    let is_peer = match local {
        WhatAmI::Peer => true,
        _ => false,
    };
    let from_router = match source_type {
        WhatAmI::Router => true,
        _ => false,
    };
    let from_peer = match source_type {
        WhatAmI::Peer => true,
        _ => false,
    };
    let master = !is_router || elected_is_self;
    let routers = if is_router && (master || from_router) {
        Some(if from_router { TreeSource::Given } else { TreeSource::Own })
    } else {
        None
    };
    let peers = if is_router && (master || !from_router) {
        Some(if from_peer { TreeSource::Given } else { TreeSource::Own })
    } else if is_peer {
        Some(if from_router || from_peer { TreeSource::Given } else { TreeSource::Own })
    } else {
        None
    };
    QueryRoutePlan { routers, peers, sessions: !is_router || master || from_router }
}

/// Which precomputed table of query routes a query is looked up in.
#[derive(Debug, Clone, Copy, PartialEq, Eq, Structural)]
pub enum RouteTable {
    Routers,
    Peers,
    Client,
}

/// Where a query arriving on a face is routed from.
#[derive(Debug, Clone, Copy, PartialEq, Eq, Structural)]
pub struct QuerySource {
    /// The table of precomputed routes to look in.
    pub table: RouteTable,
    /// Whether the tree is the one of the routing context the query carries
    /// (otherwise tree 0, this node's own).
    pub from_context: bool,
    /// What the query's source is taken to be when the route is computed.
    pub source_type: WhatAmI,
}

/// Where a query, or data, is routed from, on a node that is `local`, for a
/// message that arrives on a face to a node that is `face`: the table of
/// precomputed routes, and the tree and source kind a missing route is
/// computed with.
pub fn query_source(local: WhatAmI, face: WhatAmI) -> (s: QuerySource)
    ensures
        s == (match local {
            WhatAmI::Router => match face {
                WhatAmI::Router => QuerySource {
                    table: RouteTable::Routers,
                    from_context: true,
                    source_type: WhatAmI::Router,
                },
                WhatAmI::Peer => QuerySource {
                    table: RouteTable::Peers,
                    from_context: true,
                    source_type: WhatAmI::Peer,
                },
                WhatAmI::Client => QuerySource {
                    table: RouteTable::Routers,
                    from_context: false,
                    source_type: WhatAmI::Client,
                },
            },
            WhatAmI::Peer => match face {
                WhatAmI::Client => QuerySource {
                    table: RouteTable::Peers,
                    from_context: false,
                    source_type: WhatAmI::Client,
                },
                _ => QuerySource { table: RouteTable::Peers, from_context: true, source_type: WhatAmI::Peer },
            },
            WhatAmI::Client => QuerySource {
                table: RouteTable::Client,
                from_context: false,
                source_type: WhatAmI::Client,
            },
        }),
{
    match local {
        WhatAmI::Router => match face {
            WhatAmI::Router => QuerySource {
                table: RouteTable::Routers,
                from_context: true,
                source_type: WhatAmI::Router,
            },
            WhatAmI::Peer => QuerySource {
                table: RouteTable::Peers,
                from_context: true,
                source_type: WhatAmI::Peer,
            },
            WhatAmI::Client => QuerySource {
                table: RouteTable::Routers,
                from_context: false,
                source_type: WhatAmI::Client,
            },
        },
        WhatAmI::Peer => match face {
            WhatAmI::Client => QuerySource {
                table: RouteTable::Peers,
                from_context: false,
                source_type: WhatAmI::Client,
            },
            _ => QuerySource { table: RouteTable::Peers, from_context: true, source_type: WhatAmI::Peer },
        },
        WhatAmI::Client => QuerySource {
            table: RouteTable::Client,
            from_context: false,
            source_type: WhatAmI::Client,
        },
    }
}

// ---------------------------------------------------------------------------
// The final route of a query
// ---------------------------------------------------------------------------

/// A queryable a query may be sent to, in the order of increasing distance.
#[derive(Debug, Clone, Copy, PartialEq, Eq, Structural)]
pub struct TargetQabl {
    /// The face the query goes out on.
    pub face: usize,
    /// How many complete queryables lie that way (0 or more).
    pub complete: u64,
    /// The queryable's kind.
    pub kind: u64,
}

/// Which queryables a query wants.
#[derive(Debug, Clone, Copy, PartialEq, Eq, Structural)]
pub enum Target {
    /// No queryable at all.
    Nothing,
    /// The best one: the first complete one, or else all.
    BestMatching,
    /// All of them.
    All,
    /// All complete ones.
    AllComplete,
}

/// The target of a query: the kinds it asks and the queryables it wants.
#[derive(Debug, Clone, Copy, PartialEq, Eq, Structural)]
pub struct QueryTarget {
    pub kind: u64,
    pub target: Target,
}

/// A queryable a query may go to: not back to the face it came from, of a
/// matching kind, and complete when completeness is asked.
pub open spec fn qualifies(q: TargetQabl, src_face: usize, kind: u64, need_complete: bool) -> bool {
    &&& q.face != src_face
    &&& spec_matching_kind(kind, q.kind)
    &&& (need_complete ==> q.complete > 0)
}

/// Whether one of the first `n` queryables qualifies on `face`.
pub open spec fn face_taken(qabls: Seq<TargetQabl>, n: int, face: usize, src_face: usize, kind: u64, need_complete: bool) -> bool {
    exists|j: int| 0 <= j < n && #[trigger] qabls[j].face == face && qualifies(qabls[j], src_face, kind, need_complete)
}

/// The positions, in order, of the qualifying queryables among the first `n`
/// that are the first to qualify on their face.
pub open spec fn spec_route(qabls: Seq<TargetQabl>, n: int, src_face: usize, kind: u64, need_complete: bool) -> Seq<usize>
    decreases n,
{
    if n <= 0 {
        Seq::empty()
    } else {
        let rest = spec_route(qabls, n - 1, src_face, kind, need_complete);
        if qualifies(qabls[n - 1], src_face, kind, need_complete) && !face_taken(
            qabls,
            n - 1,
            qabls[n - 1].face,
            src_face,
            kind,
            need_complete,
        ) {
            rest.push((n - 1) as usize)
        } else {
            rest
        }
    }
}

/// The position of the first complete qualifying queryable from position
/// `from` on, if any.
pub open spec fn spec_best_from(qabls: Seq<TargetQabl>, from: int, src_face: usize, kind: u64) -> Option<int>
    decreases qabls.len() - from,
{
    if from < 0 || from >= qabls.len() {
        None
    } else if qualifies(qabls[from], src_face, kind, true) {
        Some(from)
    } else {
        spec_best_from(qabls, from + 1, src_face, kind)
    }
}

/// The position of the first complete qualifying queryable, if any.
pub open spec fn spec_best(qabls: Seq<TargetQabl>, src_face: usize, kind: u64) -> Option<int> {
    spec_best_from(qabls, 0, src_face, kind)
}

/// The positions of the queryables a query is sent to.
pub open spec fn spec_final_route(qabls: Seq<TargetQabl>, src_face: usize, target: QueryTarget) -> Seq<usize> {
    match target.target {
        Target::Nothing => Seq::empty(),
        Target::All => spec_route(qabls, qabls.len() as int, src_face, target.kind, false),
        Target::AllComplete => spec_route(qabls, qabls.len() as int, src_face, target.kind, true),
        Target::BestMatching => match spec_best(qabls, src_face, target.kind) {
            Some(j) => seq![j as usize],
            None => spec_route(qabls, qabls.len() as int, src_face, target.kind, false),
        },
    }
}

fn qualifies_exec(q: &TargetQabl, src_face: usize, kind: u64, need_complete: bool) -> (b: bool)
    ensures
        b == qualifies(*q, src_face, kind, need_complete),
{
    q.face != src_face && matching_kind(kind, q.kind) && (!need_complete || q.complete > 0)
}

/// The qualifying queryables, the first one on each face.
fn route_first_per_face(qabls: &Vec<TargetQabl>, src_face: usize, kind: u64, need_complete: bool) -> (route:
    Vec<usize>)
    ensures
        route@ == spec_route(qabls@, qabls@.len() as int, src_face, kind, need_complete),
{
    let mut route: Vec<usize> = Vec::new();
    let mut i: usize = 0;
    while i < qabls.len()
        invariant
            i <= qabls@.len(),
            route@ == spec_route(qabls@, i as int, src_face, kind, need_complete),
            forall|k: int| 0 <= k < route@.len() ==> #[trigger] route@[k] < i,
            forall|f: usize|
                #[trigger] face_taken(qabls@, i as int, f, src_face, kind, need_complete) <==> exists|k: int|
                    0 <= k < route@.len() && #[trigger] qabls@[route@[k] as int].face == f,
        decreases qabls@.len() - i,
    {
        let q = qabls[i];
        let ghost old_route = route@;
        let ghost qual = qualifies(q, src_face, kind, need_complete);
        let mut seen = false;
        if qualifies_exec(&q, src_face, kind, need_complete) {
            let mut k: usize = 0;
            while k < route.len()
                invariant
                    k <= route@.len(),
                    i < qabls@.len(),
                    q == qabls@[i as int],
                    forall|m: int| 0 <= m < route@.len() ==> #[trigger] route@[m] < i,
                    seen == exists|m: int| 0 <= m < k && #[trigger] qabls@[route@[m] as int].face == q.face,
                decreases route@.len() - k,
            {
                if qabls[route[k]].face == q.face {
                    seen = true;
                }
                k = k + 1;
            }
            if !seen {
                route.push(i);
            }
        }
        proof {
            assert(qual ==> (seen <==> face_taken(qabls@, i as int, q.face, src_face, kind, need_complete)));
            assert forall|f: usize|
                #[trigger] face_taken(qabls@, i + 1, f, src_face, kind, need_complete) <==> exists|k: int|
                    0 <= k < route@.len() && #[trigger] qabls@[route@[k] as int].face == f by {
                if face_taken(qabls@, i + 1, f, src_face, kind, need_complete) {
                    let j = choose|j: int|
                        0 <= j < i + 1 && #[trigger] qabls@[j].face == f && qualifies(
                            qabls@[j],
                            src_face,
                            kind,
                            need_complete,
                        );
                    if j < i {
                        assert(face_taken(qabls@, i as int, f, src_face, kind, need_complete));
                        let k = choose|k: int|
                            0 <= k < old_route.len() && #[trigger] qabls@[old_route[k] as int].face == f;
                        assert(route@[k] == old_route[k]);
                    } else if seen {
                        let k = choose|k: int|
                            0 <= k < old_route.len() && #[trigger] qabls@[old_route[k] as int].face == f;
                        assert(route@[k] == old_route[k]);
                    } else {
                        assert(route@[old_route.len() as int] == i);
                    }
                }
                if exists|k: int| 0 <= k < route@.len() && #[trigger] qabls@[route@[k] as int].face == f {
                    let k = choose|k: int| 0 <= k < route@.len() && #[trigger] qabls@[route@[k] as int].face == f;
                    if k < old_route.len() {
                        assert(qabls@[old_route[k] as int].face == f);
                        assert(face_taken(qabls@, i as int, f, src_face, kind, need_complete));
                        let j = choose|j: int|
                            0 <= j < i && #[trigger] qabls@[j].face == f && qualifies(
                                qabls@[j],
                                src_face,
                                kind,
                                need_complete,
                            );
                        assert(qabls@[j].face == f);
                    } else {
                        assert(qabls@[i as int].face == f);
                    }
                }
            }
            assert(spec_route(qabls@, i + 1, src_face, kind, need_complete) == route@);
        }
        i = i + 1;
    }
    route
}


/// The positions of the queryables a query is sent to: none for no target;
/// for all (complete) queryables, the first qualifying one on each face; for
/// the best one, the first complete qualifying queryable, or else all.
pub fn compute_final_route(qabls: &Vec<TargetQabl>, src_face: usize, target: &QueryTarget) -> (route:
    Vec<usize>)
    ensures
        route@ == spec_final_route(qabls@, src_face, *target),
{
    match target.target {
        Target::Nothing => Vec::new(),
        Target::All => route_first_per_face(qabls, src_face, target.kind, false),
        Target::AllComplete => route_first_per_face(qabls, src_face, target.kind, true),
        Target::BestMatching => {
            let mut i: usize = 0;
            while i < qabls.len()
                invariant
                    i <= qabls@.len(),
                    target.target == Target::BestMatching,
                    spec_best(qabls@, src_face, target.kind) == spec_best_from(qabls@, i as int, src_face, target.kind),
                decreases qabls@.len() - i,
            {
                if qualifies_exec(&qabls[i], src_face, target.kind, true) {
                    let mut route: Vec<usize> = Vec::new();
                    route.push(i);
                    assert(route@ =~= seq![i]);
                    return route;
                }
                i = i + 1;
            }
            route_first_per_face(qabls, src_face, target.kind, false)
        },
    }
}

proof fn lemma_route_properties(qabls: Seq<TargetQabl>, n: int, src_face: usize, kind: u64, need_complete: bool)
    requires
        0 <= n <= qabls.len() <= usize::MAX,
    ensures
        ({
            let r = spec_route(qabls, n, src_face, kind, need_complete);
            &&& forall|k: int| 0 <= k < r.len() ==> #[trigger] r[k] < n
            &&& forall|k: int| 0 <= k < r.len() ==> qualifies(qabls[#[trigger] r[k] as int], src_face, kind, need_complete)
            &&& forall|k1: int, k2: int|
                0 <= k1 < k2 < r.len() ==> qabls[#[trigger] r[k1] as int].face != qabls[#[trigger] r[k2] as int].face
            &&& forall|j: int|
                0 <= j < n && qualifies(#[trigger] qabls[j], src_face, kind, need_complete) ==> exists|k: int|
                    0 <= k < r.len() && qabls[#[trigger] r[k] as int].face == qabls[j].face
        }),
    decreases n,
{
    if n > 0 {
        lemma_route_properties(qabls, n - 1, src_face, kind, need_complete);
        let rest = spec_route(qabls, n - 1, src_face, kind, need_complete);
        let r = spec_route(qabls, n, src_face, kind, need_complete);
        let q = qabls[n - 1];
        if qualifies(q, src_face, kind, need_complete) && !face_taken(qabls, n - 1, q.face, src_face, kind, need_complete) {
            assert(r == rest.push((n - 1) as usize));
            assert forall|k1: int, k2: int|
                0 <= k1 < k2 < r.len() implies qabls[#[trigger] r[k1] as int].face != qabls[#[trigger] r[k2] as int].face by {
                if k2 == r.len() - 1 {
                    assert(r[k2] == n - 1);
                    assert(r[k1] == rest[k1]);
                    if qabls[r[k1] as int].face == q.face {
                        assert(face_taken(qabls, n - 1, q.face, src_face, kind, need_complete)) by {
                            assert(qabls[rest[k1] as int].face == q.face);
                        }
                    }
                } else {
                    assert(r[k1] == rest[k1]);
                    assert(r[k2] == rest[k2]);
                }
            }
            assert forall|j: int|
                0 <= j < n && qualifies(#[trigger] qabls[j], src_face, kind, need_complete) implies exists|k: int|
                    0 <= k < r.len() && qabls[#[trigger] r[k] as int].face == qabls[j].face by {
                if j < n - 1 {
                    let k = choose|k: int| 0 <= k < rest.len() && qabls[#[trigger] rest[k] as int].face == qabls[j].face;
                    assert(r[k] == rest[k]);
                } else {
                    assert(r[r.len() - 1] == n - 1);
                }
            }
            assert forall|k: int| 0 <= k < r.len() implies qualifies(qabls[#[trigger] r[k] as int], src_face, kind, need_complete) by {
                if k < rest.len() {
                    assert(r[k] == rest[k]);
                }
            }
            assert forall|k: int| 0 <= k < r.len() implies #[trigger] r[k] < n by {
                if k < rest.len() {
                    assert(r[k] == rest[k]);
                }
            }
        } else {
            assert(r == rest);
            assert forall|j: int|
                0 <= j < n && qualifies(#[trigger] qabls[j], src_face, kind, need_complete) implies exists|k: int|
                    0 <= k < r.len() && qabls[#[trigger] r[k] as int].face == qabls[j].face by {
                if j == n - 1 {
                    let j2 = choose|j2: int|
                        0 <= j2 < n - 1 && #[trigger] qabls[j2].face == q.face && qualifies(
                            qabls[j2],
                            src_face,
                            kind,
                            need_complete,
                        );
                    let k = choose|k: int| 0 <= k < rest.len() && qabls[#[trigger] rest[k] as int].face == qabls[j2].face;
                }
            }
        }
    }
}

proof fn lemma_best_from(qabls: Seq<TargetQabl>, from: int, src_face: usize, kind: u64)
    requires
        0 <= from,
    ensures
        spec_best_from(qabls, from, src_face, kind) matches Some(j) ==> from <= j < qabls.len()
            && qualifies(qabls[j], src_face, kind, true),
    decreases qabls.len() - from,
{
    if from < qabls.len() && !qualifies(qabls[from], src_face, kind, true) {
        lemma_best_from(qabls, from + 1, src_face, kind);
    }
}

/// Whether the queryable at `j` can answer a query of kind `kind` from
/// `src_face` in full: it is on another face, it is complete, and its kind
/// is asked for (every kind is, when the query asks for all kinds).
pub open spec fn answers_completely(qabls: Seq<TargetQabl>, j: int, src_face: usize, kind: u64) -> bool {
    &&& qabls[j].face != src_face
    &&& qabls[j].complete > 0
    &&& ((kind & ALL_KINDS) != 0 || (kind & qabls[j].kind) != 0)
}

proof fn lemma_best_from_first(qabls: Seq<TargetQabl>, from: int, j: int, src_face: usize, kind: u64)
    requires
        0 <= from <= j < qabls.len(),
        answers_completely(qabls, j, src_face, kind),
        forall|k: int| from <= k < j ==> !answers_completely(qabls, k, src_face, kind),
    ensures
        spec_best_from(qabls, from, src_face, kind) == Some(j),
    decreases j - from,
{
    if from < j {
        assert(!answers_completely(qabls, from, src_face, kind));
        lemma_best_from_first(qabls, from + 1, j, src_face, kind);
    }
}

proof fn lemma_best_from_none(qabls: Seq<TargetQabl>, from: int, src_face: usize, kind: u64)
    requires
        0 <= from,
        forall|k: int| from <= k < qabls.len() ==> !answers_completely(qabls, k, src_face, kind),
    ensures
        spec_best_from(qabls, from, src_face, kind) is None,
    decreases qabls.len() - from,
{
    if from < qabls.len() {
        assert(!answers_completely(qabls, from, src_face, kind));
        lemma_best_from_none(qabls, from + 1, src_face, kind);
    }
}

/// A query for the best queryable goes to exactly one: the first, in order
/// of increasing distance, that can answer it completely.
pub proof fn lemma_best_is_nearest_complete(qabls: Seq<TargetQabl>, src_face: usize, target: QueryTarget, j: int)
    requires
        target.target == Target::BestMatching,
        0 <= j < qabls.len(),
        answers_completely(qabls, j, src_face, target.kind),
        forall|k: int| 0 <= k < j ==> !answers_completely(qabls, k, src_face, target.kind),
    ensures
        spec_final_route(qabls, src_face, target) == seq![j as usize],
{
    lemma_best_from_first(qabls, 0, j, src_face, target.kind);
}

/// A query for the best queryable, when none can answer it completely,
/// goes where a query for all queryables goes.
pub proof fn lemma_best_falls_back_to_all(qabls: Seq<TargetQabl>, src_face: usize, target: QueryTarget)
    requires
        target.target == Target::BestMatching,
        forall|k: int| 0 <= k < qabls.len() ==> !answers_completely(qabls, k, src_face, target.kind),
    ensures
        spec_final_route(qabls, src_face, target) == spec_final_route(
            qabls,
            src_face,
            QueryTarget { kind: target.kind, target: Target::All },
        ),
{
    lemma_best_from_none(qabls, 0, src_face, target.kind);
}

/// A query is never routed back to the face it came from, goes out at most
/// once on each face, and only to queryables of a matching kind (complete
/// ones when all complete queryables are asked for, or when the best one is
/// found); when all queryables are asked for, every face with a qualifying
/// queryable is served.
pub proof fn lemma_final_route(qabls: Seq<TargetQabl>, src_face: usize, target: QueryTarget)
    requires
        qabls.len() <= usize::MAX,
    ensures
        ({
            let r = spec_final_route(qabls, src_face, target);
            &&& forall|k: int| 0 <= k < r.len() ==> #[trigger] r[k] < qabls.len()
            &&& forall|k: int| 0 <= k < r.len() ==> qabls[#[trigger] r[k] as int].face != src_face
            &&& forall|k: int| 0 <= k < r.len() ==> spec_matching_kind(target.kind, qabls[#[trigger] r[k] as int].kind)
            &&& target.target == Target::AllComplete ==> forall|k: int|
                0 <= k < r.len() ==> qabls[#[trigger] r[k] as int].complete > 0
            &&& forall|k1: int, k2: int|
                0 <= k1 < k2 < r.len() ==> qabls[#[trigger] r[k1] as int].face != qabls[#[trigger] r[k2] as int].face
            &&& target.target == Target::All ==> forall|j: int|
                0 <= j < qabls.len() && qualifies(#[trigger] qabls[j], src_face, target.kind, false) ==> exists|k: int|
                    0 <= k < r.len() && qabls[#[trigger] r[k] as int].face == qabls[j].face
            &&& target.target == Target::Nothing ==> r.len() == 0
        }),
{
    let r = spec_final_route(qabls, src_face, target);
    match target.target {
        Target::Nothing => {},
        Target::All => {
            lemma_route_properties(qabls, qabls.len() as int, src_face, target.kind, false);
        },
        Target::AllComplete => {
            lemma_route_properties(qabls, qabls.len() as int, src_face, target.kind, true);
        },
        Target::BestMatching => {
            match spec_best(qabls, src_face, target.kind) {
                Some(j) => {
                    lemma_best_from(qabls, 0, src_face, target.kind);
                    assert(r =~= seq![j as usize]);
                },
                None => {
                    lemma_route_properties(qabls, qabls.len() as int, src_face, target.kind, false);
                },
            }
        },
    }
}

// ---------------------------------------------------------------------------
// Dispatching a query
// ---------------------------------------------------------------------------

/// What routing a query does: answer the querier at once with a final reply,
/// or send the query out, on each face of the route, under that face's next
/// query identifier.
#[derive(Debug, Clone, PartialEq, Eq)]
pub struct QueryDispatch {
    pub final_reply: bool,
    /// The faces the query goes out on, each with the identifier it is sent
    /// and kept pending under.
    pub sends: Vec<(usize, u64)>,
}

/// Dispatch a query: when its scope is unknown, or the final route (one face
/// per entry, as [`compute_final_route`] gives it, never the querier's own)
/// is empty, the querier gets a final reply and nothing is sent; otherwise
/// each face of the route gets the query under its next identifier, its
/// current one (`next_qids`, one per face) plus one, wrapping.
pub fn query_dispatch(scope_known: bool, route_faces: &Vec<usize>, next_qids: &Vec<u64>) -> (d: QueryDispatch)
    requires
        next_qids@.len() == route_faces@.len(),
    ensures
        d.final_reply == (!scope_known || route_faces@.len() == 0),
        d.final_reply ==> d.sends@.len() == 0,
        !d.final_reply ==> d.sends@.len() == route_faces@.len(),
        !d.final_reply ==> forall|i: int|
            0 <= i < route_faces@.len() ==> #[trigger] d.sends@[i] == (route_faces@[i], (if next_qids@[i]
                == u64::MAX { 0 } else { (next_qids@[i] + 1) as u64 })),
{
    if !scope_known || route_faces.len() == 0 {
        return QueryDispatch { final_reply: true, sends: Vec::new() };
    }
    let mut sends: Vec<(usize, u64)> = Vec::new();
    let mut i: usize = 0;
    while i < route_faces.len()
        invariant
            i <= route_faces@.len(),
            next_qids@.len() == route_faces@.len(),
            sends@.len() == i,
            forall|j: int|
                0 <= j < i ==> #[trigger] sends@[j] == (route_faces@[j], (if next_qids@[j] == u64::MAX {
                    0
                } else {
                    (next_qids@[j] + 1) as u64
                })),
        decreases route_faces@.len() - i,
    {
        let qid = if next_qids[i] == u64::MAX { 0 } else { next_qids[i] + 1 };
        sends.push((route_faces[i], qid));
        i = i + 1;
    }
    QueryDispatch { final_reply: false, sends }
}

// ---------------------------------------------------------------------------
// Answering an interest, and key expressions that route nowhere
// ---------------------------------------------------------------------------

/// The positions, in order, that hold `true`.
pub open spec fn true_positions(s: Seq<bool>) -> Seq<usize>
    decreases s.len(),
{
    if s.len() == 0 {
        Seq::empty()
    } else {
        let rest = true_positions(s.drop_last());
        if s.last() { rest.push((s.len() - 1) as usize) } else { rest }
    }
}

/// How an interest in subscriptions is answered.
#[derive(Debug, Clone, PartialEq, Eq)]
pub struct InterestAnswer {
    /// Whether one declaration, on the resource of the interest, answers for
    /// all the subscriptions.
    pub aggregate: bool,
    /// The positions of the subscriptions declared one by one, in order.
    pub subs: Vec<usize>,
}

/// Answer an interest in subscriptions, where `declares` says for each
/// router subscription, in order, whether [`interest_declares_sub`] declares
/// it: only an interest in the current state is answered; an aggregated one
/// gets a single declaration when some subscription would be declared; any
/// other gets a declaration for each such subscription.
pub fn interest_answer(current: bool, scope: InterestScope, declares: &Vec<bool>) -> (a: InterestAnswer)
    ensures
        a.aggregate == (current && scope == InterestScope::Aggregate && declares@.contains(true)),
        a.subs@ == (if current && scope != InterestScope::Aggregate {
            true_positions(declares@)
        } else {
            Seq::<usize>::empty()
        }),
{
    let mut subs: Vec<usize> = Vec::new();
    let mut any = false;
    let mut i: usize = 0;
    while i < declares.len()
        invariant
            i <= declares@.len(),
            subs@ == true_positions(declares@.take(i as int)),
            any == declares@.take(i as int).contains(true),
        decreases declares@.len() - i,
    {
        let ghost prev = declares@.take(i as int);
        let ghost next = declares@.take(i + 1);
        proof {
            assert(next.drop_last() =~= prev);
            assert(next.last() == declares@[i as int]);
            assert(next == prev.push(declares@[i as int]));
        }
        if declares[i] {
            subs.push(i);
            any = true;
        }
        proof {
            assert(next.contains(true) <==> (prev.contains(true) || declares@[i as int])) by {
                if next.contains(true) {
                    let k = choose|k: int| 0 <= k < next.len() && next[k] == true;
                    if k < i {
                        assert(prev[k] == true);
                    }
                }
                if prev.contains(true) {
                    let k = choose|k: int| 0 <= k < prev.len() && prev[k] == true;
                    assert(next[k] == true);
                }
                if declares@[i as int] {
                    assert(next[i as int] == true);
                }
            }
        }
        i = i + 1;
    }
    assert(declares@.take(declares@.len() as int) =~= declares@);
    if !current {
        return InterestAnswer { aggregate: false, subs: Vec::new() };
    }
    match scope {
        InterestScope::Aggregate => InterestAnswer { aggregate: any, subs: Vec::new() },
        _ => InterestAnswer { aggregate: false, subs },
    }
}

/// Whether a key expression routes nowhere: one that ends with a `/` names
/// no resource, and its data and matching subscriptions are empty outright.
pub fn routes_nowhere(key_expr: &str) -> (b: bool)
    ensures
        b == (key_expr@.len() > 0 && key_expr@.last() == '/'),
{
    let n = key_expr.unicode_len();
    n > 0 && key_expr.get_char(n - 1) == '/'
}

} // verus!
