//! The link-state routing network: link identifiers, link states and how a
//! batch of them merges, the per-link identifier mappings, and the integer
//! parts of the graph algorithms (which states are fresh, which nodes are
//! still attached, which neighbour leads towards a destination).
//!
//! The weighted graph itself and the shortest paths over it are computed by
//! the caller; these functions take and return plain indices.
use crate::routes::WhatAmI;
use itertools::Itertools;
use vstd::prelude::*;

verus! {

/// A zenoh protocol integer.
pub type ZInt = u64;

/// The identifier of a node of the network.
#[derive(Debug, Clone, Copy, PartialEq, Eq, Hash, Structural)]
pub struct PeerId {
    pub id: u128,
}

/// The identifier of a link of a node.
#[derive(Debug, Clone, Copy, PartialEq, Eq, Hash, Structural)]
pub struct LinkId(usize);

impl LinkId {
    /// The link's index.
    pub closed spec fn spec_index(&self) -> usize {
        self.0
    }

    pub fn new(id: usize) -> (l: Self)
        ensures
            l.spec_index() == id,
    {
        LinkId(id)
    }

    /// The link's index, as it is displayed.
    pub fn index(&self) -> (i: usize)
        ensures
            i == self.spec_index(),
    {
        self.0
    }

    /// A link identifier is its index: two identifiers are equal exactly when
    /// their indexes are.
    pub proof fn lemma_index_identifies(a: LinkId, b: LinkId)
        ensures
            a == b <==> a.spec_index() == b.spec_index(),
    {
    }
}

/// What a node says of itself and of its links.
#[derive(Debug, Clone, PartialEq, Eq)]
pub struct LinkState {
    /// The sender's index for the node.
    pub psid: ZInt,
    /// The node's sequence number.
    pub sn: ZInt,
    /// The node's identifier, sent with the node's first state on a link.
    pub pid: Option<PeerId>,
    pub whatami: Option<WhatAmI>,
    pub locators: Option<Vec<String>>,
    /// The sender's indexes of the node's neighbours.
    pub links: Vec<ZInt>,
}

// ---------------------------------------------------------------------------
// Merging a batch of link states
// ---------------------------------------------------------------------------

/// The states of a list that concern the node `psid`, in their order.
pub open spec fn states_of(list: Seq<LinkState>, psid: ZInt) -> Seq<LinkState> {
    list.filter(|s: LinkState| s.psid == psid)
}

/// `Itertools::into_group_map_by` on the states' `psid`, its map turned into
/// a list: one group per distinct `psid`, each holding, in their original
/// order, exactly the states with that `psid`. The order of the groups is the
/// order in which a `HashMap` is walked, which nothing here states.
#[verifier::external_body]
fn group_by_psid(list: Vec<LinkState>) -> (groups: Vec<(ZInt, Vec<LinkState>)>)
    ensures
        forall|i: int, j: int| 0 <= i < j < groups@.len() ==> #[trigger] groups@[i].0 != #[trigger] groups@[j].0,
        forall|i: int| 0 <= i < groups@.len() ==> #[trigger] groups@[i].1@ == states_of(list@, groups@[i].0),
        forall|i: int| 0 <= i < groups@.len() ==> (#[trigger] groups@[i]).1@.len() > 0,
        forall|k: int| 0 <= k < list@.len() ==> exists|i: int| 0 <= i < groups@.len() && #[trigger] groups@[i].0 == #[trigger] list@[k].psid,
{
    list.into_iter().into_group_map_by(|s| s.psid).into_iter().collect()
}

/// Whether `i` is the last position of a greatest sequence number.
pub open spec fn is_newest(group: Seq<LinkState>, i: int) -> bool {
    &&& 0 <= i < group.len()
    &&& forall|j: int| 0 <= j < group.len() ==> #[trigger] group[j].sn <= group[i].sn
    &&& forall|j: int| i < j < group.len() ==> #[trigger] group[j].sn < group[i].sn
}

/// `Itertools::minmax_by_key` on the states' sequence numbers, keeping the
/// position of the maximum, which is the last of the greatest ones. The group
/// must not be empty.
#[verifier::external_body]
fn newest_position(group: &Vec<LinkState>) -> (i: usize)
    requires
        group@.len() > 0,
    ensures
        is_newest(group@, i as int),
{
    match group.iter().enumerate().minmax_by_key(|p| p.1.sn) {
        itertools::MinMaxResult::NoElements => 0,
        itertools::MinMaxResult::OneElement(p) => p.0,
        itertools::MinMaxResult::MinMax(_, p) => p.0,
    }
}

/// The first identifier a group of states gives.
pub open spec fn first_pid(group: Seq<LinkState>) -> Option<PeerId>
    decreases group.len(),
{
    if group.len() == 0 {
        None
    } else if group[0].pid is Some {
        group[0].pid
    } else {
        first_pid(group.drop_first())
    }
}

/// The first node kind a group of states gives.
pub open spec fn first_whatami(group: Seq<LinkState>) -> Option<WhatAmI>
    decreases group.len(),
{
    if group.len() == 0 {
        None
    } else if group[0].whatami is Some {
        group[0].whatami
    } else {
        first_whatami(group.drop_first())
    }
}

/// The first locators a group of states gives.
pub open spec fn first_locators(group: Seq<LinkState>) -> Option<Vec<String>>
    decreases group.len(),
{
    if group.len() == 0 {
        None
    } else if group[0].locators is Some {
        group[0].locators
    } else {
        first_locators(group.drop_first())
    }
}

/// The state a group of states of one node merges into: the first
/// identifier, kind and locators given, and the sequence number and links of
/// the newest state (the last of the newest, if several share its number).
pub open spec fn merged(group: Seq<LinkState>, psid: ZInt, newest: int) -> LinkState {
    LinkState {
        psid,
        sn: group[newest].sn,
        pid: first_pid(group),
        whatami: first_whatami(group),
        locators: first_locators(group),
        links: group[newest].links,
    }
}

/// Some state of `states` concerns the node `psid`.
pub open spec fn has_psid(states: Seq<LinkState>, psid: ZInt) -> bool {
    exists|i: int| 0 <= i < states.len() && #[trigger] states[i].psid == psid
}

/// `m` is the merge of the states of `list` that share its `psid`.
pub open spec fn merges_group(list: Seq<LinkState>, m: LinkState) -> bool {
    exists|n: int|
        is_newest(states_of(list, m.psid), n) && m == #[trigger] merged(
            states_of(list, m.psid),
            m.psid,
            n,
        )
}

/// `m` is the merge of a group of states keyed by their `psid`.
pub open spec fn merges_entry(entry: (ZInt, Vec<LinkState>), m: LinkState) -> bool {
    exists|n: int| is_newest(entry.1@, n) && m == #[trigger] merged(entry.1@, entry.0, n)
}

/// Merge one group of states.
fn merge_group(psid: ZInt, group: Vec<LinkState>) -> (m: LinkState)
    requires
        group@.len() > 0,
    ensures
        exists|n: int| is_newest(group@, n) && m == merged(group@, psid, n),
{
    let ghost g = group@;
    let newest = newest_position(&group);
    let mut pid: Option<PeerId> = None;
    let mut whatami: Option<WhatAmI> = None;
    let mut locators_at: usize = group.len();
    let mut i: usize = group.len();
    // Scan from the back, so that the first one given wins.
    while i > 0
        invariant
            i <= g.len(),
            group@ == g,
            pid == first_pid(g.skip(i as int)),
            whatami == first_whatami(g.skip(i as int)),
            locators_at == g.len() || (i <= locators_at < g.len() && g[locators_at as int].locators is Some),
            (locators_at == g.len()) ==> first_locators(g.skip(i as int)) is None,
            (locators_at < g.len()) ==> first_locators(g.skip(i as int)) == g[locators_at as int].locators,
        decreases i,
    {
        let k = i - 1;
        assert(g.skip(k as int).drop_first() =~= g.skip(i as int));
        if group[k].pid.is_some() {
            pid = group[k].pid;
        }
        if group[k].whatami.is_some() {
            whatami = group[k].whatami;
        }
        if group[k].locators.is_some() {
            locators_at = k;
        }
        i = k;
    }
    assert(g.skip(0) =~= g);
    let sn = group[newest].sn;
    let mut locators: Option<Vec<String>> = None;
    let mut links: Vec<ZInt> = Vec::new();
    let mut rest = group;
    while rest.len() > 0
        invariant
            rest@.len() <= g.len(),
            rest@ == g.take(rest@.len() as int),
            newest < g.len(),
            locators_at <= g.len(),
            rest@.len() <= newest ==> links == g[newest as int].links,
            locators_at < g.len() && rest@.len() <= locators_at ==> locators == g[locators_at as int].locators,
            locators_at == g.len() ==> locators is None,
        decreases rest@.len(),
    {
        let k = rest.len() - 1;
        let st = rest.pop().unwrap();
        assert(st == g[k as int]);
        assert(rest@ =~= g.take(k as int));
        let LinkState { psid: _, sn: _, pid: _, whatami: _, locators: l, links: ls } = st;
        if k == locators_at {
            locators = l;
        }
        if k == newest {
            links = ls;
        }
    }
    LinkState { psid, sn, pid, whatami, locators, links }
}

/// Merge a batch of link states into one state per node (per `psid`).
///
/// Each node's state takes the first identifier, kind and locators that any
/// of its states gives, and the sequence number and links of its newest
/// state. The order of the nodes is not stated.
#[verifier::rlimit(40)]
pub fn merge_link_state_list(list: Vec<LinkState>) -> (res: Vec<LinkState>)
    ensures
        forall|i: int, j: int| 0 <= i < j < res@.len() ==> #[trigger] res@[i].psid != #[trigger] res@[j].psid,
        forall|k: int| 0 <= k < list@.len() ==> has_psid(res@, #[trigger] list@[k].psid),
        forall|i: int| 0 <= i < res@.len() ==> #[trigger] merges_group(list@, res@[i]),
        is_merge_of(res@, list@),
{
    let ghost l = list@;
    let groups = group_by_psid(list);
    let ghost gs = groups@;
    let ghost n = gs.len();
    let mut res: Vec<LinkState> = Vec::new();
    let mut it = groups;
    while it.len() > 0
        invariant
            it@ == gs.take(it@.len() as int),
            it@.len() + res@.len() == n,
            n == gs.len(),
            forall|i: int| 0 <= i < gs.len() ==> (#[trigger] gs[i]).1@.len() > 0,
            forall|m: int| 0 <= m < res@.len() ==> #[trigger] res@[m].psid == gs[n - 1 - m].0,
            forall|m: int| 0 <= m < res@.len() ==> merges_entry(gs[n - 1 - m], #[trigger] res@[m]),
        decreases it@.len(),
    {
        let ghost before = res@;
        let idx = it.len() - 1;
        let (psid, group) = it.pop().unwrap();
        assert((psid, group) == gs[idx as int]);
        assert(it@ =~= gs.take(idx as int));
        let m = merge_group(psid, group);
        res.push(m);
        assert forall|m2: int| 0 <= m2 < res@.len() implies merges_entry(gs[n - 1 - m2], #[trigger] res@[m2]) by {
            if m2 < before.len() {
                assert(res@[m2] == before[m2]);
            }
        }
    }
    assert forall|i: int, j: int| 0 <= i < j < res@.len() implies #[trigger] res@[i].psid != #[trigger] res@[j].psid by {
        assert(gs[n - 1 - i].0 != gs[n - 1 - j].0);
    }
    assert forall|k: int| 0 <= k < list@.len() implies has_psid(res@, #[trigger] list@[k].psid) by {
        let g = choose|g: int| 0 <= g < gs.len() && #[trigger] gs[g].0 == list@[k].psid;
        assert(res@[n - 1 - g].psid == gs[g].0);
    }
    assert forall|i: int| 0 <= i < res@.len() implies #[trigger] merges_group(l, res@[i]) by {
        assert(gs[n - 1 - i].1@ == states_of(l, gs[n - 1 - i].0));
        assert(merges_entry(gs[n - 1 - i], res@[i]));
        let k = choose|k: int|
            is_newest(gs[n - 1 - i].1@, k) && res@[i] == #[trigger] merged(gs[n - 1 - i].1@, gs[n - 1 - i].0, k);
        assert(is_newest(states_of(l, res@[i].psid), k));
    }
    res
}


/// A list of link states received from one neighbour.
#[derive(Debug, Clone, PartialEq, Eq)]
pub struct LinkStateUpdate {
    pub list: Vec<LinkState>,
    pub pid: PeerId,
    pub whatami: WhatAmI,
}

/// The number standing for a node kind when updates are grouped.
pub open spec fn kind_code(w: WhatAmI) -> u8 {
    match w {
        WhatAmI::Router => 0,
        WhatAmI::Peer => 1,
        WhatAmI::Client => 2,
    }
}

/// The key updates are grouped by: the sender and its kind.
pub open spec fn sender_key_spec(u: LinkStateUpdate) -> (u128, u8) {
    (u.pid.id, kind_code(u.whatami))
}

fn sender_key(u: &LinkStateUpdate) -> (k: (u128, u8))
    ensures
        k == sender_key_spec(*u),
{
    let code: u8 = match u.whatami {
        WhatAmI::Router => 0,
        WhatAmI::Peer => 1,
        WhatAmI::Client => 2,
    };
    (u.pid.id, code)
}

/// Whether an update has the sender key `key`.
pub open spec fn has_key(key: (u128, u8)) -> spec_fn(LinkStateUpdate) -> bool {
    |u: LinkStateUpdate| sender_key_spec(u) == key
}

/// The updates of `reqs` with the sender key `key`, in their order.
pub open spec fn updates_with(reqs: Seq<LinkStateUpdate>, key: (u128, u8)) -> Seq<LinkStateUpdate> {
    reqs.filter(has_key(key))
}

/// `Itertools::into_group_map_by` on the updates' sender keys, its map turned
/// into a list: one group per distinct key, each holding, in their original
/// order, exactly the updates with that key. The order of the groups is the
/// order in which a `HashMap` is walked, which nothing here states.
#[verifier::external_body]
fn group_by_sender(reqs: Vec<LinkStateUpdate>) -> (groups: Vec<((u128, u8), Vec<LinkStateUpdate>)>)
    ensures
        forall|i: int, j: int| 0 <= i < j < groups@.len() ==> #[trigger] groups@[i].0 != #[trigger] groups@[j].0,
        forall|i: int| 0 <= i < groups@.len() ==> #[trigger] groups@[i].1@ == updates_with(reqs@, groups@[i].0),
        forall|i: int| 0 <= i < groups@.len() ==> (#[trigger] groups@[i]).1@.len() > 0,
        forall|k: int| 0 <= k < reqs@.len() ==> exists|i: int| 0 <= i < groups@.len() && #[trigger] groups@[i].0 == sender_key_spec(#[trigger] reqs@[k]),
{
    reqs.into_iter().into_group_map_by(|u| sender_key(u)).into_iter().collect()
}

/// The states of the updates of `reqs` from `pid` as a `whatami`, one list
/// after the other.
pub open spec fn states_from(reqs: Seq<LinkStateUpdate>, pid: PeerId, whatami: WhatAmI) -> Seq<LinkState>
    decreases reqs.len(),
{
    if reqs.len() == 0 {
        Seq::empty()
    } else {
        let rest = states_from(reqs.drop_last(), pid, whatami);
        let u = reqs.last();
        if u.pid == pid && u.whatami == whatami {
            rest + u.list@
        } else {
            rest
        }
    }
}

/// `res` merges `list`: one state per node of `list`, each the merge of the
/// node's states.
pub open spec fn is_merge_of(res: Seq<LinkState>, list: Seq<LinkState>) -> bool {
    &&& forall|i: int, j: int| 0 <= i < j < res.len() ==> #[trigger] res[i].psid != #[trigger] res[j].psid
    &&& forall|k: int| 0 <= k < list.len() ==> has_psid(res, #[trigger] list[k].psid)
    &&& forall|i: int| 0 <= i < res.len() ==> #[trigger] merges_group(list, res[i])
}

/// Filtering by key first does not change the states a sender sent.
proof fn lemma_states_from_filter(reqs: Seq<LinkStateUpdate>, pid: PeerId, whatami: WhatAmI)
    ensures
        states_from(reqs, pid, whatami) == states_from(
            updates_with(reqs, (pid.id, kind_code(whatami))),
            pid,
            whatami,
        ),
    decreases reqs.len(),
{
    let key = (pid.id, kind_code(whatami));
    let pred = has_key(key);
    reveal(Seq::filter);
    if reqs.len() > 0 {
        lemma_states_from_filter(reqs.drop_last(), pid, whatami);
        let u = reqs.last();
        let sub = reqs.drop_last().filter(pred);
        assert(reqs.filter(pred) == (if pred(u) { sub.push(u) } else { sub }));
        if pred(u) {
            assert(sub.push(u).drop_last() =~= sub);
            assert(u.pid == pid);
            assert(u.whatami == whatami);
        } else {
            assert(!(u.pid == pid && u.whatami == whatami));
        }
    }
}

/// Merge the link states each sender sent in a batch of updates: one update
/// per sender and kind, whose list merges, as `merge_link_state_list` does,
/// all the states that sender sent, in order. The order of the updates is not
/// stated.
pub fn merge_updates(reqs: Vec<LinkStateUpdate>) -> (res: Vec<LinkStateUpdate>)
    ensures
        forall|i: int, j: int|
            0 <= i < j < res@.len() ==> (#[trigger] res@[i]).pid != (#[trigger] res@[j]).pid
                || res@[i].whatami != res@[j].whatami,
        forall|k: int|
            0 <= k < reqs@.len() ==> exists|i: int|
                0 <= i < res@.len() && (#[trigger] res@[i]).pid == (#[trigger] reqs@[k]).pid
                    && res@[i].whatami == reqs@[k].whatami,
        forall|i: int|
            0 <= i < res@.len() ==> is_merge_of(
                (#[trigger] res@[i]).list@,
                states_from(reqs@, res@[i].pid, res@[i].whatami),
            ),
        forall|i: int|
            0 <= i < res@.len() ==> exists|k: int|
                0 <= k < reqs@.len() && (#[trigger] reqs@[k]).pid == (#[trigger] res@[i]).pid
                    && reqs@[k].whatami == res@[i].whatami,
{
    let ghost r = reqs@;
    let groups = group_by_sender(reqs);
    let ghost gs = groups@;
    let ghost n = gs.len();
    let mut res: Vec<LinkStateUpdate> = Vec::new();
    let mut it = groups;
    while it.len() > 0
        invariant
            it@ == gs.take(it@.len() as int),
            it@.len() + res@.len() == n,
            n == gs.len(),
            forall|i: int| 0 <= i < gs.len() ==> (#[trigger] gs[i]).1@.len() > 0,
            forall|i: int| 0 <= i < gs.len() ==> #[trigger] gs[i].1@ == updates_with(r, gs[i].0),
            forall|m: int|
                0 <= m < res@.len() ==> sender_key_spec(#[trigger] res@[m]) == gs[n - 1 - m].0,
            forall|m: int|
                0 <= m < res@.len() ==> is_merge_of(
                    (#[trigger] res@[m]).list@,
                    states_from(r, res@[m].pid, res@[m].whatami),
                ),
            forall|m: int|
                0 <= m < res@.len() ==> exists|k: int|
                    0 <= k < r.len() && (#[trigger] r[k]).pid == (#[trigger] res@[m]).pid
                        && r[k].whatami == res@[m].whatami,
        decreases it@.len(),
    {
        let ghost before = res@;
        let idx = it.len() - 1;
        let (key, group) = it.pop().unwrap();
        assert((key, group) == gs[idx as int]);
        assert(it@ =~= gs.take(idx as int));
        let ghost g = group@;
        assert(g.len() > 0);
        proof {
            r.lemma_filter_pred(has_key(key), 0);
        }
        let pid = group[0].pid;
        let whatami = group[0].whatami;
        assert(sender_key_spec(g[0]) == key);
        proof {
            assert forall|j: int| 0 <= j < g.len() implies sender_key_spec(#[trigger] g[j]) == key by {
                r.lemma_filter_pred(has_key(key), j);
            }
        }
        // Turn the group around, then take its updates back in their order.
        let mut grp = group;
        let mut rev: Vec<LinkStateUpdate> = Vec::new();
        while grp.len() > 0
            invariant
                grp@ == g.take(grp@.len() as int),
                rev@.len() + grp@.len() == g.len(),
                forall|j: int| 0 <= j < rev@.len() ==> #[trigger] rev@[j] == g[g.len() - 1 - j],
            decreases grp@.len(),
        {
            let u = grp.pop().unwrap();
            rev.push(u);
            assert(grp@ =~= g.take(grp@.len() as int));
        }
        let mut states: Vec<LinkState> = Vec::new();
        while rev.len() > 0
            invariant
                rev@.len() <= g.len(),
                g.len() > 0,
                g[0].pid == pid,
                g[0].whatami == whatami,
                forall|j: int| 0 <= j < rev@.len() ==> #[trigger] rev@[j] == g[g.len() - 1 - j],
                forall|j: int| 0 <= j < g.len() ==> sender_key_spec(#[trigger] g[j]) == key,
                key == (pid.id, kind_code(whatami)),
                states@ == states_from(g.take(g.len() - rev@.len()), pid, whatami),
            decreases rev@.len(),
        {
            let ghost done = g.len() - rev@.len();
            let mut u = rev.pop().unwrap();
            assert(u == g[done]);
            assert(sender_key_spec(g[done]) == key);
            assert(kind_code(u.whatami) == kind_code(whatami));
            assert(u.pid == pid);
            assert(u.whatami == whatami);
            assert(g.take(done + 1).drop_last() =~= g.take(done));
            states.append(&mut u.list);
        }
        assert(g.take(g.len() as int) =~= g);
        proof {
            lemma_states_from_filter(r, pid, whatami);
        }
        let list = merge_link_state_list(states);
        proof {
            assert(r.filter(has_key(key)).contains(g[0]));
            r.lemma_filter_contains_rev(has_key(key), g[0]);
        }
        res.push(LinkStateUpdate { list, pid, whatami });
        assert forall|m: int|
            0 <= m < res@.len() implies exists|k: int|
                0 <= k < r.len() && (#[trigger] r[k]).pid == (#[trigger] res@[m]).pid
                    && r[k].whatami == res@[m].whatami by {
            if m < before.len() {
                assert(res@[m] == before[m]);
            } else {
                let k = choose|k: int| 0 <= k < r.len() && r[k] == g[0];
                assert(r[k].pid == res@[m].pid);
            }
        }
        assert forall|m: int|
            0 <= m < res@.len() implies sender_key_spec(#[trigger] res@[m]) == gs[n - 1 - m].0 by {
            if m < before.len() {
                assert(res@[m] == before[m]);
            }
        }
        assert forall|m: int|
            0 <= m < res@.len() implies is_merge_of(
                (#[trigger] res@[m]).list@,
                states_from(r, res@[m].pid, res@[m].whatami),
            ) by {
            if m < before.len() {
                assert(res@[m] == before[m]);
            }
        }
    }
    assert forall|i: int, j: int|
        0 <= i < j < res@.len() implies (#[trigger] res@[i]).pid != (#[trigger] res@[j]).pid
            || res@[i].whatami != res@[j].whatami by {
        assert(gs[n - 1 - i].0 != gs[n - 1 - j].0);
    }
    assert forall|k: int|
        0 <= k < r.len() implies exists|i: int|
            0 <= i < res@.len() && (#[trigger] res@[i]).pid == (#[trigger] r[k]).pid
                && res@[i].whatami == r[k].whatami by {
        let g = choose|g: int| 0 <= g < gs.len() && #[trigger] gs[g].0 == sender_key_spec(r[k]);
        let i = n - 1 - g;
        assert(sender_key_spec(res@[i]) == sender_key_spec(r[k]));
        assert(kind_code(res@[i].whatami) == kind_code(r[k].whatami));
    }
    res
}

/// Merging keeps the newest news of a node: no state of the node in the
/// batch has a greater sequence number than the merged one, and the merged
/// sequence number and links are those of one of the node's states.
pub proof fn lemma_merge_keeps_newest(list: Seq<LinkState>, m: LinkState)
    requires
        merges_group(list, m),
    ensures
        forall|k: int| 0 <= k < list.len() && (#[trigger] list[k]).psid == m.psid ==> list[k].sn <= m.sn,
        exists|k: int| 0 <= k < list.len() && (#[trigger] list[k]).psid == m.psid && list[k].sn == m.sn
            && list[k].links == m.links,
{
    let pred = |s: LinkState| s.psid == m.psid;
    let g = states_of(list, m.psid);
    let n = choose|n: int| is_newest(g, n) && m == #[trigger] merged(g, m.psid, n);
    assert forall|k: int| 0 <= k < list.len() && (#[trigger] list[k]).psid == m.psid implies list[k].sn <= m.sn by {
        list.lemma_filter_contains(pred, k);
        let j = choose|j: int| 0 <= j < g.len() && g[j] == list[k];
        assert(g[j].sn <= g[n].sn);
    }
    assert(g.contains(g[n]));
    list.lemma_filter_contains_rev(pred, g[n]);
    let k = choose|k: int| 0 <= k < list.len() && list[k] == g[n];
    list.lemma_filter_pred(pred, n);
    assert(list[k].psid == m.psid);
}


// ---------------------------------------------------------------------------
// The identifier mappings of a link
// ---------------------------------------------------------------------------

#[verifier::external_type_specification]
#[verifier::external_body]
#[verifier::reject_recursive_types(V)]
pub struct ExVecMap<V>(vec_map::VecMap<V>);

/// What a `vec_map::VecMap` of node identifiers holds, by key.
pub uninterp spec fn pid_entries(m: vec_map::VecMap<PeerId>) -> Map<usize, PeerId>;

/// What a `vec_map::VecMap` of node indexes holds, by key.
pub uninterp spec fn index_entries(m: vec_map::VecMap<ZInt>) -> Map<usize, ZInt>;

/// `vec_map::VecMap::new` for node identifiers: an empty map.
#[verifier::external_body]
fn pid_map_new() -> (r: vec_map::VecMap<PeerId>)
    ensures
        pid_entries(r).dom().is_empty(),
{
    vec_map::VecMap::new()
}

/// `vec_map::VecMap::insert` for node identifiers: the key now maps to the
/// value, every other key is unchanged. The map grows its storage to the key,
/// so the key must be below `usize::MAX` (the length computation overflows
/// there); the allocation it needs for a large key is not stated.
#[verifier::external_body]
fn pid_map_insert(m: &mut vec_map::VecMap<PeerId>, key: usize, value: PeerId)
    requires
        key < usize::MAX,
    ensures
        pid_entries(*final(m)) == pid_entries(*old(m)).insert(key, value),
{
    m.insert(key, value);
}

/// `vec_map::VecMap::get` for node identifiers: the value of the key, if any.
#[verifier::external_body]
fn pid_map_get(m: &vec_map::VecMap<PeerId>, key: usize) -> (r: Option<PeerId>)
    ensures
        r == (if pid_entries(*m).contains_key(key) {
            Some(pid_entries(*m)[key])
        } else {
            None
        }),
{
    m.get(key).copied()
}

/// `vec_map::VecMap::keys` for node identifiers: the keys, in increasing
/// order. Each is below `usize::MAX`: a key is a position in the map's
/// vector, whose length is at most `usize::MAX`.
#[verifier::external_body]
fn pid_map_keys(m: &vec_map::VecMap<PeerId>) -> (keys: Vec<usize>)
    ensures
        forall|k: usize| keys@.contains(k) <==> pid_entries(*m).contains_key(k),
        forall|i: int, j: int| 0 <= i < j < keys@.len() ==> keys@[i] < keys@[j],
        forall|i: int| 0 <= i < keys@.len() ==> keys@[i] < usize::MAX,
{
    m.keys().collect()
}

/// `vec_map::VecMap::new` for node indexes: an empty map.
#[verifier::external_body]
fn index_map_new() -> (r: vec_map::VecMap<ZInt>)
    ensures
        index_entries(r).dom().is_empty(),
{
    vec_map::VecMap::new()
}

/// `vec_map::VecMap::insert` for node indexes, as for node identifiers.
#[verifier::external_body]
fn index_map_insert(m: &mut vec_map::VecMap<ZInt>, key: usize, value: ZInt)
    requires
        key < usize::MAX,
    ensures
        index_entries(*final(m)) == index_entries(*old(m)).insert(key, value),
{
    m.insert(key, value);
}

/// `vec_map::VecMap::get` for node indexes: the value of the key, if any.
#[verifier::external_body]
fn index_map_get(m: &vec_map::VecMap<ZInt>, key: usize) -> (r: Option<ZInt>)
    ensures
        r == (if index_entries(*m).contains_key(key) {
            Some(index_entries(*m)[key])
        } else {
            None
        }),
{
    m.get(key).copied()
}

/// A link to a neighbour: the neighbour's identifier, and how the
/// neighbour's indexes for nodes map to node identifiers and to this node's
/// own indexes.
pub struct Link {
    pid: PeerId,
    mappings: vec_map::VecMap<PeerId>,
    local_mappings: vec_map::VecMap<ZInt>,
}

impl Link {
    /// The neighbour's identifier.
    pub closed spec fn spec_pid(&self) -> PeerId {
        self.pid
    }

    /// The node identifier of each of the neighbour's indexes.
    pub closed spec fn pids(&self) -> Map<usize, PeerId> {
        pid_entries(self.mappings)
    }

    /// This node's index for each of the neighbour's indexes.
    pub closed spec fn locals(&self) -> Map<usize, ZInt> {
        index_entries(self.local_mappings)
    }

    /// A link to the neighbour `pid`, with no mapping yet.
    pub fn new(pid: PeerId) -> (l: Self)
        ensures
            l.spec_pid() == pid,
            l.pids() == Map::<usize, PeerId>::empty(),
            l.locals() == Map::<usize, ZInt>::empty(),
    {
        Link { pid, mappings: pid_map_new(), local_mappings: index_map_new() }
    }

    /// The neighbour's identifier.
    pub fn pid(&self) -> (p: PeerId)
        ensures
            p == self.spec_pid(),
    {
        self.pid
    }

    /// Record that the neighbour's index `psid` is the node `pid`.
    pub fn set_pid_mapping(&mut self, psid: ZInt, pid: PeerId)
        requires
            (psid as usize) < usize::MAX,
        ensures
            final(self).pids() == old(self).pids().insert(psid as usize, pid),
            final(self).locals() == old(self).locals(),
            final(self).spec_pid() == old(self).spec_pid(),
    {
        pid_map_insert(&mut self.mappings, psid as usize, pid);
    }

    /// The node the neighbour's index `psid` is, if known.
    pub fn get_pid(&self, psid: &ZInt) -> (r: Option<PeerId>)
        ensures
            r == (if self.pids().contains_key(*psid as usize) {
                Some(self.pids()[*psid as usize])
            } else {
                None
            }),
    {
        pid_map_get(&self.mappings, *psid as usize)
    }

    /// Record that the neighbour's index `psid` is this node's index `local_psid`.
    pub fn set_local_psid_mapping(&mut self, psid: ZInt, local_psid: ZInt)
        requires
            (psid as usize) < usize::MAX,
        ensures
            final(self).locals() == old(self).locals().insert(psid as usize, local_psid),
            final(self).pids() == old(self).pids(),
            final(self).spec_pid() == old(self).spec_pid(),
    {
        index_map_insert(&mut self.local_mappings, psid as usize, local_psid);
    }

    /// This node's index for the neighbour's index `psid`, if known.
    pub fn get_local_psid(&self, psid: &ZInt) -> (r: Option<ZInt>)
        ensures
            r == (if self.locals().contains_key(*psid as usize) {
                Some(self.locals()[*psid as usize])
            } else {
                None
            }),
    {
        index_map_get(&self.local_mappings, *psid as usize)
    }
}

impl Link {
    /// The least of the neighbour's indexes that names the node `pid`, if any.
    pub fn psid_of(&self, pid: &PeerId) -> (r: Option<ZInt>)
        ensures
            match r {
                Some(k) => {
                    &&& (k as usize) < usize::MAX
                    &&& (k as usize) as ZInt == k
                    &&& self.pids().contains_key(k as usize)
                    &&& self.pids()[k as usize] == *pid
                    &&& forall|j: usize|
                        j < k && #[trigger] self.pids().contains_key(j) ==> self.pids()[j] != *pid
                },
                None => forall|j: usize|
                    #[trigger] self.pids().contains_key(j) ==> self.pids()[j] != *pid,
            },
    {
        let keys = pid_map_keys(&self.mappings);
        let mut i: usize = 0;
        while i < keys.len()
            invariant
                i <= keys@.len(),
                forall|k: usize| keys@.contains(k) <==> self.pids().contains_key(k),
                forall|a: int, b: int| 0 <= a < b < keys@.len() ==> keys@[a] < keys@[b],
                forall|a: int| 0 <= a < i ==> self.pids()[#[trigger] keys@[a]] != *pid,
                forall|a: int| 0 <= a < keys@.len() ==> keys@[a] < usize::MAX,
            decreases keys@.len() - i,
        {
            let k = keys[i];
            assert(keys@.contains(k));
            match pid_map_get(&self.mappings, k) {
                Some(p) => {
                    if p == *pid {
                        proof {
                            assert forall|j: usize|
                                j < k && #[trigger] self.pids().contains_key(j) implies self.pids()[j]
                                != *pid by {
                                assert(keys@.contains(j));
                                let a = choose|a: int| 0 <= a < keys@.len() && keys@[a] == j;
                                if a >= i {
                                    assert(keys@[i as int] <= keys@[a]);
                                }
                            }
                        }
                        return Some(k as ZInt);
                    }
                },
                None => {},
            }
            i = i + 1;
        }
        proof {
            assert forall|j: usize| #[trigger] self.pids().contains_key(j) implies self.pids()[j]
                != *pid by {
                assert(keys@.contains(j));
                let a = choose|a: int| 0 <= a < keys@.len() && keys@[a] == j;
            }
        }
        None
    }

    /// Once this node gives the node `pid` the index `idx`, record it for the
    /// least of the neighbour's indexes that names `pid`, if any.
    pub fn map_local_index(&mut self, pid: &PeerId, idx: ZInt)
        ensures
            final(self).spec_pid() == old(self).spec_pid(),
            final(self).pids() == old(self).pids(),
            match old(self).psid_of_spec(*pid) {
                Some(k) => final(self).locals() == old(self).locals().insert(k as usize, idx),
                None => final(self).locals() == old(self).locals(),
            },
    {
        match self.psid_of(pid) {
            Some(k) => {
                proof {
                    self.lemma_psid_of_spec(*pid, k);
                }
                self.set_local_psid_mapping(k, idx);
            },
            None => {
                proof {
                    if self.psid_of_spec(*pid) is Some {
                        let k = self.psid_of_spec(*pid)->0;
                        assert(self.pids().contains_key(k as usize));
                    }
                }
            },
        }
    }

    /// The least of the neighbour's indexes that names the node `pid`, if any.
    pub open spec fn psid_of_spec(&self, pid: PeerId) -> Option<ZInt> {
        if exists|k: usize| #[trigger] self.pids().contains_key(k) && self.pids()[k] == pid {
            Some(
                (choose|k: usize|
                    #[trigger] self.pids().contains_key(k) && self.pids()[k] == pid && forall|j: usize|
                        j < k && #[trigger] self.pids().contains_key(j) ==> self.pids()[j] != pid) as ZInt,
            )
        } else {
            None
        }
    }

    proof fn lemma_psid_of_spec(&self, pid: PeerId, k: ZInt)
        requires
            self.pids().contains_key(k as usize),
            self.pids()[k as usize] == pid,
            forall|j: usize| j < k && #[trigger] self.pids().contains_key(j) ==> self.pids()[j] != pid,
            (k as usize) as ZInt == k,
        ensures
            self.psid_of_spec(pid) == Some(k),
    {
        let c = choose|c: usize|
            #[trigger] self.pids().contains_key(c) && self.pids()[c] == pid && forall|j: usize|
                j < c && #[trigger] self.pids().contains_key(j) ==> self.pids()[j] != pid;
        assert(self.pids().contains_key(k as usize));
        if c < k as usize {
            assert(self.pids().contains_key(c));
        } else if c > k as usize {
            assert(self.pids().contains_key(k as usize));
        }
    }
}

/// The routing context (tree index) a message from a link refers to: this
/// node's index for the context the message carries (0 when it carries
/// none); 0 when the link or the mapping is unknown.
pub fn local_context(link: Option<&Link>, context: Option<ZInt>) -> (idx: usize)
    ensures
        ({
            let c = match context {
                Some(c) => c,
                None => 0u64,
            };
            idx == (match link {
                Some(l) => if l.locals().contains_key(c as usize) {
                    l.locals()[c as usize] as usize
                } else {
                    0usize
                },
                None => 0usize,
            })
        }),
{
    let context = match context {
        Some(c) => c,
        None => 0,
    };
    match link {
        Some(l) => match l.get_local_psid(&context) {
            Some(psid) => psid as usize,
            None => 0,
        },
        None => 0,
    }
}


// ---------------------------------------------------------------------------
// Resolving the link states received on a link
// ---------------------------------------------------------------------------

/// A received link state, with the node and its neighbours named by their
/// identifiers.
#[derive(Debug, Clone, PartialEq, Eq)]
pub struct ResolvedState {
    pub pid: PeerId,
    pub whatami: WhatAmI,
    pub locators: Option<Vec<String>>,
    pub sn: ZInt,
    pub links: Vec<PeerId>,
}

/// A resolved state as a mathematical value.
pub struct ResolvedView {
    pub pid: PeerId,
    pub whatami: WhatAmI,
    pub locators: Option<Vec<String>>,
    pub sn: ZInt,
    pub links: Seq<PeerId>,
}

impl View for ResolvedState {
    type V = ResolvedView;

    open spec fn view(&self) -> ResolvedView {
        ResolvedView {
            pid: self.pid,
            whatami: self.whatami,
            locators: self.locators,
            sn: self.sn,
            links: self.links@,
        }
    }
}

/// The index of the first node with identifier `pid`, if any.
pub open spec fn index_of(nodes: Seq<(PeerId, usize)>, pid: PeerId) -> Option<usize>
    decreases nodes.len(),
{
    if nodes.len() == 0 {
        None
    } else if nodes[0].0 == pid {
        Some(nodes[0].1)
    } else {
        index_of(nodes.drop_first(), pid)
    }
}

/// The identifier mappings once the first `n` states have registered the
/// identifiers they give.
pub open spec fn pids_after(m0: Map<usize, PeerId>, states: Seq<LinkState>, n: int) -> Map<usize, PeerId>
    decreases n,
{
    if n <= 0 {
        m0
    } else {
        let m = pids_after(m0, states, n - 1);
        match states[n - 1].pid {
            Some(p) => m.insert(states[n - 1].psid as usize, p),
            None => m,
        }
    }
}

/// The index mappings once the first `n` states that give an identifier of
/// a known node have registered that node's index.
pub open spec fn locals_after(
    l0: Map<usize, ZInt>,
    states: Seq<LinkState>,
    nodes: Seq<(PeerId, usize)>,
    n: int,
) -> Map<usize, ZInt>
    decreases n,
{
    if n <= 0 {
        l0
    } else {
        let l = locals_after(l0, states, nodes, n - 1);
        match states[n - 1].pid {
            Some(p) => match index_of(nodes, p) {
                Some(idx) => l.insert(states[n - 1].psid as usize, idx as ZInt),
                None => l,
            },
            None => l,
        }
    }
}

/// The identifier of the node of state `i`: the one it gives, or else the
/// one its index maps to once the states before it are registered.
pub open spec fn state_pid(m0: Map<usize, PeerId>, states: Seq<LinkState>, i: int) -> Option<PeerId> {
    match states[i].pid {
        Some(p) => Some(p),
        None => {
            let m = pids_after(m0, states, i);
            if m.contains_key(states[i].psid as usize) {
                Some(m[states[i].psid as usize])
            } else {
                None
            }
        },
    }
}

/// The identifiers of the neighbours' indexes that are known, in order of
/// first mention, each once.
pub open spec fn mapped_links(m: Map<usize, PeerId>, links: Seq<ZInt>) -> Seq<PeerId>
    decreases links.len(),
{
    if links.len() == 0 {
        Seq::empty()
    } else {
        let rest = mapped_links(m, links.drop_last());
        let l = links.last() as usize;
        if m.contains_key(l) && !rest.contains(m[l]) { rest.push(m[l]) } else { rest }
    }
}

/// A neighbour is named once among the mapped links.
pub proof fn lemma_mapped_links_distinct(m: Map<usize, PeerId>, links: Seq<ZInt>)
    ensures
        mapped_links(m, links).no_duplicates(),
    decreases links.len(),
{
    if links.len() > 0 {
        lemma_mapped_links_distinct(m, links.drop_last());
    }
}

/// The resolved states of the first `n` states whose node is known, with
/// their neighbours named through the final mappings `mf`.
pub open spec fn resolved(m0: Map<usize, PeerId>, states: Seq<LinkState>, mf: Map<usize, PeerId>, n: int) -> Seq<ResolvedView>
    decreases n,
{
    if n <= 0 {
        Seq::empty()
    } else {
        let rest = resolved(m0, states, mf, n - 1);
        let st = states[n - 1];
        match state_pid(m0, states, n - 1) {
            Some(p) => rest.push(
                ResolvedView {
                    pid: p,
                    whatami: match st.whatami {
                        Some(w) => w,
                        None => WhatAmI::Router,
                    },
                    locators: st.locators,
                    sn: st.sn,
                    links: mapped_links(mf, st.links@),
                },
            ),
            None => rest,
        }
    }
}

/// Whether the resolved states name `pid` with sequence number `sn`.
pub open spec fn names_state(views: Seq<ResolvedView>, pid: PeerId, sn: ZInt) -> bool {
    exists|r: int| 0 <= r < views.len() && #[trigger] views[r].pid == pid && views[r].sn == sn
}

proof fn lemma_resolved_grows(m0: Map<usize, PeerId>, states: Seq<LinkState>, mf: Map<usize, PeerId>, a: int, b: int)
    requires
        0 <= a <= b,
    ensures
        resolved(m0, states, mf, a).len() <= resolved(m0, states, mf, b).len(),
        forall|r: int| 0 <= r < resolved(m0, states, mf, a).len() ==> #[trigger] resolved(m0, states, mf, b)[r]
            == resolved(m0, states, mf, a)[r],
    decreases b - a,
{
    if a < b {
        lemma_resolved_grows(m0, states, mf, a, b - 1);
    }
}

proof fn lemma_resolved_names(m0: Map<usize, PeerId>, states: Seq<LinkState>, mf: Map<usize, PeerId>, i: int, p: PeerId)
    requires
        0 <= i < states.len(),
        state_pid(m0, states, i) == Some(p),
    ensures
        names_state(resolved(m0, states, mf, states.len() as int), p, states[i].sn),
{
    let before = resolved(m0, states, mf, i);
    let after = resolved(m0, states, mf, i + 1);
    assert(after[before.len() as int].pid == p && after[before.len() as int].sn == states[i].sn);
    lemma_resolved_grows(m0, states, mf, i + 1, states.len() as int);
    let all = resolved(m0, states, mf, states.len() as int);
    assert(all[before.len() as int] == after[before.len() as int]);
}

proof fn lemma_pid_kept(m0: Map<usize, PeerId>, states: Seq<LinkState>, from: int, to: int, key: usize, p: PeerId)
    requires
        0 <= from <= to <= states.len(),
        pids_after(m0, states, from).contains_key(key),
        pids_after(m0, states, from)[key] == p,
        forall|k: int| from <= k < to ==> !((#[trigger] states[k]).pid is Some && states[k].psid as usize == key),
    ensures
        pids_after(m0, states, to).contains_key(key),
        pids_after(m0, states, to)[key] == p,
    decreases to - from,
{
    if from < to {
        lemma_pid_kept(m0, states, from, to - 1, key, p);
        assert(!(states[to - 1].pid is Some && states[to - 1].psid as usize == key));
    }
}

/// A state that names its node gets resolved under that name, with its
/// sequence number.
pub proof fn lemma_named_state_resolved(m0: Map<usize, PeerId>, states: Seq<LinkState>, mf: Map<usize, PeerId>, i: int, p: PeerId)
    requires
        0 <= i < states.len(),
        states[i].pid == Some(p),
    ensures
        names_state(resolved(m0, states, mf, states.len() as int), p, states[i].sn),
{
    lemma_resolved_names(m0, states, mf, i, p);
}

/// A state that gives no identifier is resolved through an earlier state of
/// the same batch that named the same index: under the identifier that
/// state gave, with its own sequence number, as long as no state in between
/// named that index otherwise.
pub proof fn lemma_unnamed_state_resolved_in_batch(
    m0: Map<usize, PeerId>,
    states: Seq<LinkState>,
    mf: Map<usize, PeerId>,
    j: int,
    i: int,
    p: PeerId,
)
    requires
        0 <= j < i < states.len(),
        states[j].pid == Some(p),
        states[j].psid as usize == states[i].psid as usize,
        states[i].pid is None,
        forall|k: int| j < k < i ==> !((#[trigger] states[k]).pid is Some && states[k].psid as usize == states[i].psid as usize),
    ensures
        names_state(resolved(m0, states, mf, states.len() as int), p, states[i].sn),
{
    let key = states[i].psid as usize;
    assert(pids_after(m0, states, j + 1) == pids_after(m0, states, j).insert(key, p));
    lemma_pid_kept(m0, states, j + 1, i, key, p);
    lemma_resolved_names(m0, states, mf, i, p);
}

/// A state that gives no identifier is resolved through the link's mapping
/// from before the batch, when no earlier state of the batch named its index.
pub proof fn lemma_unnamed_state_resolved_by_link(
    m0: Map<usize, PeerId>,
    states: Seq<LinkState>,
    mf: Map<usize, PeerId>,
    i: int,
    p: PeerId,
)
    requires
        0 <= i < states.len(),
        m0.contains_key(states[i].psid as usize),
        m0[states[i].psid as usize] == p,
        states[i].pid is None,
        forall|k: int| 0 <= k < i ==> !((#[trigger] states[k]).pid is Some && states[k].psid as usize == states[i].psid as usize),
    ensures
        names_state(resolved(m0, states, mf, states.len() as int), p, states[i].sn),
{
    lemma_pid_kept(m0, states, 0, i, states[i].psid as usize, p);
    lemma_resolved_names(m0, states, mf, i, p);
}

fn node_index(nodes: &Vec<(PeerId, usize)>, pid: PeerId) -> (r: Option<usize>)
    ensures
        r == index_of(nodes@, pid),
{
    let mut i: usize = 0;
    assert(nodes@.skip(0) =~= nodes@);
    while i < nodes.len()
        invariant
            i <= nodes@.len(),
            index_of(nodes@, pid) == index_of(nodes@.skip(i as int), pid),
        decreases nodes@.len() - i,
    {
        assert(nodes@.skip(i as int).drop_first() =~= nodes@.skip(i + 1));
        if nodes[i].0 == pid {
            return Some(nodes[i].1);
        }
        i = i + 1;
    }
    assert(nodes@.skip(i as int) =~= Seq::<(PeerId, usize)>::empty());
    None
}

fn map_links(link: &Link, links: &Vec<ZInt>) -> (r: Vec<PeerId>)
    ensures
        r@ == mapped_links(link.pids(), links@),
        r@.no_duplicates(),
{
    proof {
        lemma_mapped_links_distinct(link.pids(), links@);
    }
    let mut r: Vec<PeerId> = Vec::new();
    let mut i: usize = 0;
    while i < links.len()
        invariant
            i <= links@.len(),
            r@ == mapped_links(link.pids(), links@.take(i as int)),
        decreases links@.len() - i,
    {
        assert(links@.take(i + 1).drop_last() =~= links@.take(i as int));
        match link.get_pid(&links[i]) {
            Some(p) => {
                if !contains_pid(&r, &p) {
                    r.push(p);
                }
            },
            None => {},
        }
        i = i + 1;
    }
    assert(links@.take(links@.len() as int) =~= links@);
    r
}


/// Register the identifier mappings that a batch of link states received on
/// `link` gives, then name each state's node and neighbours by identifier.
///
/// A state that gives its node's identifier maps its index to it, and, when
/// the node is among `nodes` (identifiers with their indexes in this node's
/// graph), also to that node's index. A state whose node is known neither
/// way is dropped, and so is a neighbour index that maps to no identifier
/// once the whole batch is registered. A state without a kind is a router's.
pub fn resolve_link_states(link: &mut Link, states: Vec<LinkState>, nodes: &Vec<(PeerId, usize)>) -> (out: Vec<
    ResolvedState,
>)
    requires
        forall|i: int| 0 <= i < states@.len() && (#[trigger] states@[i]).pid is Some ==> (states@[i].psid as usize) < usize::MAX,
    ensures
        final(link).spec_pid() == old(link).spec_pid(),
        final(link).pids() == pids_after(old(link).pids(), states@, states@.len() as int),
        final(link).locals() == locals_after(old(link).locals(), states@, nodes@, states@.len() as int),
        out@.map_values(|r: ResolvedState| r@) == resolved(
            old(link).pids(),
            states@,
            final(link).pids(),
            states@.len() as int,
        ),
        forall|i: int| 0 <= i < out@.len() ==> (#[trigger] out@[i]).links@.no_duplicates(),
{
    let ghost s0 = states@;
    let ghost m0 = link.pids();
    let ghost l0 = link.locals();
    let ghost pid0 = link.spec_pid();
    let n = states.len();
    let mut pids: Vec<Option<PeerId>> = Vec::new();
    let mut i: usize = 0;
    while i < n
        invariant
            n == s0.len(),
            states@ == s0,
            i <= n,
            forall|k: int| 0 <= k < s0.len() && (#[trigger] s0[k]).pid is Some ==> (s0[k].psid as usize) < usize::MAX,
            link.spec_pid() == pid0,
            link.pids() == pids_after(m0, s0, i as int),
            link.locals() == locals_after(l0, s0, nodes@, i as int),
            pids@.len() == i,
            forall|k: int| 0 <= k < i ==> #[trigger] pids@[k] == state_pid(m0, s0, k),
        decreases n - i,
    {
        let psid = states[i].psid;
        let resolved_pid = match states[i].pid {
            Some(p) => {
                link.set_pid_mapping(psid, p);
                match node_index(nodes, p) {
                    Some(idx) => link.set_local_psid_mapping(psid, idx as ZInt),
                    None => {},
                }
                Some(p)
            },
            None => link.get_pid(&psid),
        };
        pids.push(resolved_pid);
        i = i + 1;
    }
    let ghost mf = link.pids();
    let mut out: Vec<ResolvedState> = Vec::new();
    let mut rest = states;
    let mut j: usize = 0;
    assert(s0.skip(0) =~= s0);
    while rest.len() > 0
        invariant
            n == s0.len(),
            j + rest@.len() == n,
            rest@ == s0.skip(j as int),
            link.pids() == mf,
            pids@.len() == n,
            forall|k: int| 0 <= k < n ==> #[trigger] pids@[k] == state_pid(m0, s0, k),
            out@.map_values(|r: ResolvedState| r@) == resolved(m0, s0, mf, j as int),
            forall|k: int| 0 <= k < out@.len() ==> (#[trigger] out@[k]).links@.no_duplicates(),
        decreases rest@.len(),
    {
        let st = rest.remove(0);
        assert(st == s0[j as int]);
        assert(rest@ =~= s0.skip(j + 1));
        let ghost before = out@;
        match pids[j] {
            Some(p) => {
                let links = map_links(link, &st.links);
                let LinkState { psid: _, sn, pid: _, whatami, locators, links: _ } = st;
                let whatami = match whatami {
                    Some(w) => w,
                    None => WhatAmI::Router,
                };
                out.push(ResolvedState { pid: p, whatami, locators, sn, links });
                assert(out@.map_values(|r: ResolvedState| r@) =~= before.map_values(|r: ResolvedState| r@).push(
                    out@[out@.len() - 1]@,
                )) by {
                    assert(out@ == before.push(out@[out@.len() - 1]));
                }
            },
            None => {},
        }
        j = j + 1;
    }
    out
}


// ---------------------------------------------------------------------------
// Nodes of the graph
// ---------------------------------------------------------------------------

/// A node of the network graph, as its latest link state describes it.
#[derive(Debug, Clone, PartialEq, Eq)]
pub struct Node {
    pub pid: PeerId,
    pub whatami: Option<WhatAmI>,
    pub locators: Option<Vec<String>>,
    /// The sequence number of the latest state applied; 0 for a node only
    /// known as someone's neighbour.
    pub sn: ZInt,
    /// The node's neighbours.
    pub links: Vec<PeerId>,
}

/// What applying a received state to a node does: a state with a greater
/// sequence number replaces the node's sequence number and links, and its
/// locators when it gives some; any other state changes nothing.
pub open spec fn applies(old: Node, new: Node, sn: ZInt, links: Seq<PeerId>, locators: Option<Vec<String>>, r: Option<bool>) -> bool {
    if old.sn < sn {
        &&& r == Some(old.sn == 0)
        &&& new.pid == old.pid
        &&& new.whatami == old.whatami
        &&& new.sn == sn
        &&& new.links@ == links
        &&& new.locators == (if locators is Some { locators } else { old.locators })
    } else {
        &&& r is None
        &&& new == old
    }
}

/// Sequence numbers only grow: applying a state never lowers a node's
/// number, and changes its links or locators only when the state is newer.
pub proof fn lemma_sn_only_grows(
    old: Node,
    new: Node,
    sn: ZInt,
    links: Seq<PeerId>,
    locators: Option<Vec<String>>,
    r: Option<bool>,
)
    requires
        applies(old, new, sn, links, locators, r),
    ensures
        new.sn >= old.sn,
        (new.links@ != old.links@ || new.locators != old.locators) ==> sn > old.sn,
{
}

impl Node {
    /// The node a received state describes, added to the graph the first
    /// time its identifier is seen in a state: with that state's kind,
    /// locators, sequence number and links.
    pub fn from_state(r: ResolvedState) -> (n: Node)
        ensures
            n.pid == r.pid,
            n.whatami == Some(r.whatami),
            n.locators == r.locators,
            n.sn == r.sn,
            n.links@ == r.links@,
    {
        Node { pid: r.pid, whatami: Some(r.whatami), locators: r.locators, sn: r.sn, links: r.links }
    }

    /// A node first seen only as someone's neighbour: known by its
    /// identifier alone, with sequence number 0 and no links.
    pub fn introduced(pid: PeerId) -> (n: Node)
        ensures
            n.pid == pid,
            n.whatami is None,
            n.locators is None,
            n.sn == 0,
            n.links@.len() == 0,
    {
        Node { pid, whatami: None, locators: None, sn: 0, links: Vec::new() }
    }

    /// Apply a received state. Returns whether it was applied and, if so,
    /// whether the node had never had a state of its own before.
    pub fn apply_state(&mut self, sn: ZInt, links: Vec<PeerId>, locators: Option<Vec<String>>) -> (r: Option<bool>)
        ensures
            applies(*old(self), *final(self), sn, links@, locators, r),
            old(self).links@.no_duplicates() && links@.no_duplicates() ==> final(self).links@.no_duplicates(),
    {
        let oldsn = self.sn;
        if oldsn < sn {
            self.sn = sn;
            self.links = links;
            if locators.is_some() {
                self.locators = locators;
            }
            Some(oldsn == 0)
        } else {
            None
        }
    }
}

/// A state is applied at most once: applying it again to the node it
/// updated changes nothing.
pub proof fn lemma_state_applies_once(
    n0: Node,
    n1: Node,
    n2: Node,
    sn: ZInt,
    links: Seq<PeerId>,
    locators: Option<Vec<String>>,
    r1: Option<bool>,
    r2: Option<bool>,
)
    requires
        applies(n0, n1, sn, links, locators, r1),
        applies(n1, n2, sn, links, locators, r2),
    ensures
        r2 is None,
        n2 == n1,
        n0.sn <= n1.sn,
{
}

/// The position of the first present node with identifier `pid`, from `from` on.
pub open spec fn find_node(nodes: Seq<Option<Node>>, pid: PeerId, from: int) -> Option<int>
    decreases nodes.len() - from,
{
    if from < 0 || from >= nodes.len() {
        None
    } else if nodes[from] is Some && nodes[from]->Some_0.pid == pid {
        Some(from)
    } else {
        find_node(nodes, pid, from + 1)
    }
}

/// The graph has a link from the present node `x` to the node `y`: `x`
/// names a neighbour whose identifier is first found at `y`.
pub open spec fn is_link(nodes: Seq<Option<Node>>, x: int, y: int) -> bool {
    &&& 0 <= x < nodes.len()
    &&& nodes[x] is Some
    &&& exists|k: int|
        0 <= k < nodes[x]->Some_0.links@.len() && #[trigger] find_node(nodes, nodes[x]->Some_0.links@[k], 0)
            == Some(y)
}

/// `p` is a path of links.
pub open spec fn is_path(nodes: Seq<Option<Node>>, p: Seq<int>) -> bool {
    &&& p.len() > 0
    &&& forall|i: int| 0 <= i < p.len() - 1 ==> #[trigger] is_link(nodes, p[i], p[i + 1])
}

/// The node `y` can be reached from the present node `root` along links.
pub open spec fn reachable(nodes: Seq<Option<Node>>, root: int, y: int) -> bool {
    &&& 0 <= root < nodes.len()
    &&& nodes[root] is Some
    &&& exists|p: Seq<int>| #[trigger] is_path(nodes, p) && p[0] == root && p.last() == y
}

proof fn lemma_find_node(nodes: Seq<Option<Node>>, pid: PeerId, from: int)
    requires
        0 <= from,
    ensures
        find_node(nodes, pid, from) matches Some(i) ==> from <= i < nodes.len() && nodes[i] is Some,
    decreases nodes.len() - from,
{
    if from < nodes.len() && !(nodes[from] is Some && nodes[from]->Some_0.pid == pid) {
        lemma_find_node(nodes, pid, from + 1);
    }
}

/// The index of the first present node with identifier `pid`.
pub fn get_idx(nodes: &Vec<Option<Node>>, pid: &PeerId) -> (r: Option<usize>)
    ensures
        r matches Some(i) ==> find_node(nodes@, *pid, 0) == Some(i as int),
        r is None ==> find_node(nodes@, *pid, 0) is None,
{
    let mut i: usize = 0;
    while i < nodes.len()
        invariant
            i <= nodes@.len(),
            find_node(nodes@, *pid, 0) == find_node(nodes@, *pid, i as int),
        decreases nodes@.len() - i,
    {
        match &nodes[i] {
            Some(n) => {
                if n.pid == *pid {
                    return Some(i);
                }
            },
            None => {},
        }
        i = i + 1;
    }
    None
}

proof fn lemma_path_extend(nodes: Seq<Option<Node>>, root: int, x: int, y: int)
    requires
        reachable(nodes, root, x),
        is_link(nodes, x, y),
    ensures
        reachable(nodes, root, y),
{
    let p = choose|p: Seq<int>| #[trigger] is_path(nodes, p) && p[0] == root && p.last() == x;
    let q = p.push(y);
    assert forall|i: int| 0 <= i < q.len() - 1 implies #[trigger] is_link(nodes, q[i], q[i + 1]) by {
        if i < p.len() - 1 {
            assert(q[i] == p[i] && q[i + 1] == p[i + 1]);
            assert(is_link(nodes, p[i], p[i + 1]));
        }
    }
    assert(is_path(nodes, q));
}

proof fn lemma_closed_contains_reachable(nodes: Seq<Option<Node>>, root: int, visited: Seq<bool>, p: Seq<int>)
    requires
        visited.len() == nodes.len(),
        0 <= root < nodes.len(),
        visited[root],
        forall|x: int, y: int| 0 <= x < nodes.len() && visited[x] && #[trigger] is_link(nodes, x, y) ==> 0 <= y < nodes.len() && visited[y],
        is_path(nodes, p),
        p[0] == root,
    ensures
        0 <= p.last() < nodes.len() && visited[p.last()],
    decreases p.len(),
{
    if p.len() > 1 {
        let q = p.drop_last();
        assert forall|i: int| 0 <= i < q.len() - 1 implies #[trigger] is_link(nodes, q[i], q[i + 1]) by {
            assert(is_link(nodes, p[i], p[i + 1]));
        }
        lemma_closed_contains_reachable(nodes, root, visited, q);
        let i = p.len() - 2;
        assert(is_link(nodes, p[i], p[i + 1]));
        assert(q.last() == p[i]);
    }
}

/// The graph once the nodes at the positions `removed` are taken out.
pub open spec fn prune(nodes: Seq<Option<Node>>, removed: Seq<usize>) -> Seq<Option<Node>> {
    Seq::new(nodes.len(), |y: int| if removed.contains(y as usize) { None } else { nodes[y] })
}

proof fn lemma_prefix_reachable(nodes: Seq<Option<Node>>, root: int, p: Seq<int>, i: int)
    requires
        0 <= root < nodes.len(),
        nodes[root] is Some,
        is_path(nodes, p),
        p[0] == root,
        0 <= i < p.len(),
    ensures
        reachable(nodes, root, p[i]),
{
    let q = p.take(i + 1);
    assert forall|j: int| 0 <= j < q.len() - 1 implies #[trigger] is_link(nodes, q[j], q[j + 1]) by {
        assert(q[j] == p[j] && q[j + 1] == p[j + 1]);
        assert(is_link(nodes, p[j], p[j + 1]));
    }
    assert(is_path(nodes, q));
}

proof fn lemma_find_node_pruned(nodes: Seq<Option<Node>>, removed: Seq<usize>, pid: PeerId, from: int)
    requires
        0 <= from,
        find_node(nodes, pid, from) is Some,
        !removed.contains(find_node(nodes, pid, from)->0 as usize),
    ensures
        find_node(prune(nodes, removed), pid, from) == find_node(nodes, pid, from),
    decreases nodes.len() - from,
{
    if from < nodes.len() && !(nodes[from] is Some && nodes[from]->Some_0.pid == pid) {
        lemma_find_node_pruned(nodes, removed, pid, from + 1);
    }
}

/// Taking the detached nodes out of the graph leaves this node in it, and
/// every node left reachable from it along the links of the nodes left.
pub proof fn lemma_pruned_graph_connected(nodes: Seq<Option<Node>>, root: int, removed: Seq<usize>)
    requires
        0 <= root < nodes.len(),
        nodes[root] is Some,
        forall|y: int|
            0 <= y < nodes.len() ==> (#[trigger] removed.contains(y as usize) <==> nodes[y] is Some && !reachable(nodes, root, y)),
    ensures
        prune(nodes, removed)[root] is Some,
        forall|y: int| 0 <= y < nodes.len() && (#[trigger] prune(nodes, removed)[y]) is Some ==> reachable(prune(nodes, removed), root, y),
{
    let pr = prune(nodes, removed);
    assert(reachable(nodes, root, root)) by {
        assert(is_path(nodes, seq![root]));
    }
    assert(!removed.contains(root as usize));
    assert forall|y: int| 0 <= y < nodes.len() && (#[trigger] pr[y]) is Some implies reachable(pr, root, y) by {
        assert(!removed.contains(y as usize));
        assert(nodes[y] is Some);
        assert(reachable(nodes, root, y));
        let p = choose|p: Seq<int>| #[trigger] is_path(nodes, p) && p[0] == root && p.last() == y;
        assert forall|i: int| 0 <= i < p.len() - 1 implies #[trigger] is_link(pr, p[i], p[i + 1]) by {
            assert(is_link(nodes, p[i], p[i + 1]));
            lemma_prefix_reachable(nodes, root, p, i);
            lemma_prefix_reachable(nodes, root, p, i + 1);
            let x = p[i];
            let z = p[i + 1];
            lemma_path_in_range(nodes, root, p, i + 1);
            assert(!removed.contains(x as usize));
            assert(!removed.contains(z as usize));
            let k = choose|k: int|
                0 <= k < nodes[x]->Some_0.links@.len() && #[trigger] find_node(nodes, nodes[x]->Some_0.links@[k], 0) == Some(z);
            lemma_find_node_pruned(nodes, removed, nodes[x]->Some_0.links@[k], 0);
            assert(pr[x] == nodes[x]);
            assert(find_node(pr, pr[x]->Some_0.links@[k], 0) == Some(z));
        }
        assert(is_path(pr, p));
    }
}

proof fn lemma_path_in_range(nodes: Seq<Option<Node>>, root: int, p: Seq<int>, i: int)
    requires
        is_path(nodes, p),
        0 < i < p.len(),
    ensures
        0 <= p[i] < nodes.len(),
        0 <= p[i - 1] < nodes.len(),
{
    let j = i - 1;
    assert(is_link(nodes, p[j], p[j + 1]));
    assert(p[j + 1] == p[i]);
    let x = p[i - 1];
    let k = choose|k: int|
        0 <= k < nodes[x]->Some_0.links@.len() && #[trigger] find_node(nodes, nodes[x]->Some_0.links@[k], 0) == Some(p[i]);
    lemma_find_node(nodes, nodes[x]->Some_0.links@[k], 0);
}

/// Every link from a visited node leads to a visited node or to one on the stack.
pub open spec fn links_covered(ns: Seq<Option<Node>>, visited: Seq<bool>, stack: Seq<usize>) -> bool {
    forall|x: int, y: int|
        0 <= x < ns.len() && visited[x] && #[trigger] is_link(ns, x, y) ==> 0 <= y < ns.len() && (visited[y]
            || stack.contains(y as usize))
}

/// The set of visited positions.
pub open spec fn visited_set(visited: Seq<bool>) -> Set<int> {
    Set::new(|x: int| 0 <= x < visited.len() && visited[x])
}

proof fn lemma_visited_set_bound(visited: Seq<bool>)
    ensures
        visited_set(visited).finite(),
        visited_set(visited).len() <= visited.len(),
{
    vstd::set_lib::lemma_int_range(0, visited.len() as int);
    vstd::set_lib::lemma_len_subset(visited_set(visited), vstd::set_lib::set_int_range(0, visited.len() as int));
}

/// The present nodes that cannot be reached from `root`, in increasing
/// order: those the graph drops once the links are followed from this node.
pub fn detached_nodes(nodes: &Vec<Option<Node>>, root: usize) -> (removed: Vec<usize>)
    requires
        root < nodes@.len(),
        nodes@[root as int] is Some,
    ensures
        forall|k: int| 0 <= k < removed@.len() ==> #[trigger] removed@[k] < nodes@.len(),
        forall|k1: int, k2: int| 0 <= k1 < k2 < removed@.len() ==> #[trigger] removed@[k1] < #[trigger] removed@[k2],
        forall|y: int|
            0 <= y < nodes@.len() ==> (#[trigger] removed@.contains(y as usize) <==> nodes@[y] is Some
                && !reachable(nodes@, root as int, y)),
{
    let n = nodes.len();
    let ghost ns = nodes@;
    let mut visited: Vec<bool> = Vec::new();
    let mut c: usize = 0;
    while c < n
        invariant
            c <= n,
            n == ns.len(),
            visited@.len() == c,
            forall|i: int| 0 <= i < c ==> !visited@[i],
        decreases n - c,
    {
        visited.push(false);
        c = c + 1;
    }
    assert(visited_set(visited@) =~= Set::<int>::empty());
    let mut stack: Vec<usize> = Vec::new();
    stack.push(root);
    let mut count: usize = 0;
    proof {
        assert(is_path(ns, seq![root as int]));
        assert(stack@.contains(root)) by {
            assert(stack@[0] == root);
        }
    }
    while stack.len() > 0
        invariant
            n == ns.len(),
            nodes@ == ns,
            root < n,
            ns[root as int] is Some,
            visited@.len() == n,
            count == visited_set(visited@).len(),
            visited_set(visited@).finite(),
            forall|i: int| 0 <= i < stack@.len() ==> (#[trigger] stack@[i] as int) < n,
            forall|i: int| 0 <= i < stack@.len() ==> reachable(ns, root as int, #[trigger] stack@[i] as int),
            forall|x: int| 0 <= x < n && #[trigger] visited@[x] ==> reachable(ns, root as int, x),
            visited@[root as int] || stack@.contains(root),
            links_covered(ns, visited@, stack@),
        decreases n - count, stack@.len(),
    {
        proof {
            lemma_visited_set_bound(visited@);
        }
        let ghost old_stack = stack@;
        let ghost old_visited = visited@;
        let x = stack.pop().unwrap();
        let ghost popped = stack@;
        assert(old_stack == popped.push(x));
        assert forall|i: int| 0 <= i < popped.len() implies reachable(ns, root as int, #[trigger] popped[i] as int) by {
            assert(popped[i] == old_stack[i]);
        }
        assert forall|i: int| 0 <= i < popped.len() implies (#[trigger] popped[i] as int) < n by {
            assert(popped[i] == old_stack[i]);
        }
        assert(reachable(ns, root as int, x as int)) by {
            assert(old_stack[old_stack.len() - 1] == x);
        }
        if !visited[x] {
            visited[x] = true;
            proof {
                assert(visited_set(visited@) =~= visited_set(old_visited).insert(x as int));
                assert(!visited_set(old_visited).contains(x as int));
                lemma_visited_set_bound(visited@);
            }
            count = count + 1;
            match &nodes[x] {
                Some(node) => {
                    let mut k: usize = 0;
                    while k < node.links.len()
                        invariant
                            n == ns.len(),
                            nodes@ == ns,
                            (x as int) < n,
                            ns[x as int] == Some(*node),
                            reachable(ns, root as int, x as int),
                            visited@.len() == n,
                            k <= node.links@.len(),
                            forall|i: int| 0 <= i < stack@.len() ==> (#[trigger] stack@[i] as int) < n,
                            forall|i: int| 0 <= i < stack@.len() ==> reachable(ns, root as int, #[trigger] stack@[i] as int),
                            forall|i: int| 0 <= i < popped.len() ==> stack@.contains(#[trigger] popped[i]),
                            forall|j: int| 0 <= j < k ==> match #[trigger] find_node(ns, node.links@[j], 0) {
                                Some(y) => 0 <= y < n && (visited@[y] || stack@.contains(y as usize)),
                                None => true,
                            },
                        decreases node.links@.len() - k,
                    {
                        let ghost before = stack@;
                        match get_idx(nodes, &node.links[k]) {
                            Some(y) => {
                                proof {
                                    lemma_find_node(ns, node.links@[k as int], 0);
                                    assert(is_link(ns, x as int, y as int));
                                    lemma_path_extend(ns, root as int, x as int, y as int);
                                }
                                if !visited[y] {
                                    stack.push(y);
                                    proof {
                                        assert(stack@[stack@.len() - 1] == y);
                                        assert forall|i: int| 0 <= i < popped.len() implies stack@.contains(#[trigger] popped[i]) by {
                                            let m = choose|m: int| 0 <= m < before.len() && before[m] == popped[i];
                                            assert(stack@[m] == before[m]);
                                        }
                                        assert forall|j: int| 0 <= j < k implies match #[trigger] find_node(ns, node.links@[j], 0) {
                                            Some(y2) => 0 <= y2 < n && (visited@[y2] || stack@.contains(y2 as usize)),
                                            None => true,
                                        } by {
                                            if let Some(y2) = find_node(ns, node.links@[j], 0) {
                                                if !visited@[y2] {
                                                    let m = choose|m: int| 0 <= m < before.len() && before[m] == y2 as usize;
                                                    assert(stack@[m] == before[m]);
                                                }
                                            }
                                        }
                                        assert forall|i: int| 0 <= i < stack@.len() implies reachable(ns, root as int, #[trigger] stack@[i] as int) by {
                                            if i < before.len() {
                                                assert(stack@[i] == before[i]);
                                            }
                                        }
                                        assert forall|i: int| 0 <= i < stack@.len() implies (#[trigger] stack@[i] as int) < n by {
                                            if i < before.len() {
                                                assert(stack@[i] == before[i]);
                                            }
                                        }
                                    }
                                }
                            },
                            None => {},
                        }
                        k = k + 1;
                    }
                    proof {
                        assert forall|x2: int, y: int|
                            0 <= x2 < n && visited@[x2] && #[trigger] is_link(ns, x2, y) implies 0 <= y < n && (
                            visited@[y] || stack@.contains(y as usize)) by {
                            if x2 == x as int {
                                let kk = choose|kk: int|
                                    0 <= kk < ns[x2]->Some_0.links@.len() && #[trigger] find_node(
                                        ns,
                                        ns[x2]->Some_0.links@[kk],
                                        0,
                                    ) == Some(y);
                                assert(find_node(ns, node.links@[kk], 0) == Some(y));
                            } else {
                                assert(old_visited[x2]);
                                if !visited@[y] {
                                    assert(old_stack.contains(y as usize));
                                    let m = choose|m: int| 0 <= m < old_stack.len() && old_stack[m] == y as usize;
                                    if m < popped.len() {
                                        assert(popped[m] == y as usize);
                                    }
                                }
                            }
                        }
                    }
                },
                None => {
                    proof {
                        assert forall|x2: int, y: int|
                            0 <= x2 < n && visited@[x2] && #[trigger] is_link(ns, x2, y) implies 0 <= y < n && (
                            visited@[y] || stack@.contains(y as usize)) by {
                            assert(x2 != x as int);
                            assert(old_visited[x2]);
                            if !visited@[y] {
                                let m = choose|m: int| 0 <= m < old_stack.len() && old_stack[m] == y as usize;
                                if m < popped.len() {
                                    assert(popped[m] == y as usize);
                                }
                            }
                        }
                    }
                },
            }
            proof {
                assert forall|x2: int| 0 <= x2 < n && #[trigger] visited@[x2] implies reachable(ns, root as int, x2) by {
                    if x2 != x as int {
                        assert(old_visited[x2]);
                    }
                }
            }
        } else {
            proof {
                assert(links_covered(ns, visited@, stack@)) by {
                    assert forall|x2: int, y: int|
                        0 <= x2 < n && visited@[x2] && #[trigger] is_link(ns, x2, y) implies 0 <= y < n && (
                        visited@[y] || stack@.contains(y as usize)) by {
                        if !visited@[y] {
                            let m = choose|m: int| 0 <= m < old_stack.len() && old_stack[m] == y as usize;
                            if m < popped.len() {
                                assert(popped[m] == y as usize);
                            }
                        }
                    }
                }
            }
        }
        proof {
            if !visited@[root as int] {
                let m = choose|m: int| 0 <= m < old_stack.len() && old_stack[m] == root;
                if m < popped.len() {
                    assert(popped[m] == root);
                }
            }
        }
    }
    assert forall|y: int| 0 <= y < n implies (visited@[y] <==> reachable(ns, root as int, y)) by {
        if reachable(ns, root as int, y) {
            let p = choose|p: Seq<int>| #[trigger] is_path(ns, p) && p[0] == root && p.last() == y;
            lemma_closed_contains_reachable(ns, root as int, visited@, p);
        }
    }
    let mut removed: Vec<usize> = Vec::new();
    let mut i: usize = 0;
    while i < n
        invariant
            i <= n,
            n == ns.len(),
            nodes@ == ns,
            visited@.len() == n,
            forall|y: int| 0 <= y < n ==> (visited@[y] <==> reachable(ns, root as int, y)),
            forall|k: int| 0 <= k < removed@.len() ==> #[trigger] removed@[k] < i,
            forall|k1: int, k2: int| 0 <= k1 < k2 < removed@.len() ==> #[trigger] removed@[k1] < #[trigger] removed@[k2],
            forall|y: int|
                0 <= y < n ==> (#[trigger] removed@.contains(y as usize) <==> y < i && ns[y] is Some
                    && !reachable(ns, root as int, y)),
        decreases n - i,
    {
        let ghost before = removed@;
        if nodes[i].is_some() && !visited[i] {
            removed.push(i);
            proof {
                assert forall|y: int| 0 <= y < n implies (#[trigger] removed@.contains(y as usize) <==> y < i + 1
                    && ns[y] is Some && !reachable(ns, root as int, y)) by {
                    if removed@.contains(y as usize) && y != i as int {
                        let m = choose|m: int| 0 <= m < removed@.len() && removed@[m] == y as usize;
                        assert(m < before.len());
                        assert(before.contains(y as usize));
                    }
                    if y < i && ns[y] is Some && !reachable(ns, root as int, y) {
                        assert(before.contains(y as usize));
                        let m = choose|m: int| 0 <= m < before.len() && before[m] == y as usize;
                        assert(removed@[m] == y as usize);
                    }
                    if y == i as int {
                        assert(removed@[removed@.len() - 1] == i);
                    }
                }
            }
        } else {
            proof {
                assert forall|y: int| 0 <= y < n implies (#[trigger] removed@.contains(y as usize) <==> y < i + 1
                    && ns[y] is Some && !reachable(ns, root as int, y)) by {
                    if removed@.contains(y as usize) {
                        let m = choose|m: int| 0 <= m < removed@.len() && removed@[m] == y as usize;
                        assert(removed@[m] < i);
                    }
                }
            }
        }
        i = i + 1;
    }
    removed
}


// ---------------------------------------------------------------------------
// Routing trees
// ---------------------------------------------------------------------------

/// The routing tree rooted at one node, seen from this node.
#[derive(Debug, Clone, PartialEq, Eq)]
pub struct Tree {
    /// The neighbour that traffic from the root comes in from.
    pub parent: Option<usize>,
    /// The neighbours that traffic from the root goes out to.
    pub childs: Vec<usize>,
    /// For each destination, the neighbour to go to.
    pub directions: Vec<Option<usize>>,
}

/// A tree as a mathematical value.
pub struct TreeView {
    pub parent: Option<usize>,
    pub childs: Seq<usize>,
    pub directions: Seq<Option<usize>>,
}

impl View for Tree {
    type V = TreeView;

    open spec fn view(&self) -> TreeView {
        TreeView { parent: self.parent, childs: self.childs@, directions: self.directions@ }
    }
}

/// The predecessors form a forest whose every entry is a position: a rank
/// below the number of positions strictly decreases from a node to its
/// predecessor, as it does in any tree of shortest paths.
pub open spec fn is_forest(preds: Seq<Option<usize>>) -> bool {
    &&& forall|x: int| 0 <= x < preds.len() && (#[trigger] preds[x]) is Some ==> (preds[x]->Some_0 as int) < preds.len()
    &&& exists|rank: Seq<nat>| is_ranking(preds, rank)
}

/// `rank` gives each position a rank below the number of positions, and a
/// node's predecessor a lower rank than the node.
pub open spec fn is_ranking(preds: Seq<Option<usize>>, rank: Seq<nat>) -> bool {
    &&& rank.len() == preds.len()
    &&& forall|x: int| 0 <= x < preds.len() ==> #[trigger] rank[x] < preds.len()
    &&& forall|x: int|
        0 <= x < preds.len() && (#[trigger] preds[x]) is Some ==> rank[preds[x]->Some_0 as int] < rank[x]
}

/// Following the predecessors from `x` ends at a root (a node with no
/// predecessor) within `fuel` nodes, every predecessor met being a position.
pub open spec fn reaches_root(preds: Seq<Option<usize>>, x: int, fuel: nat) -> bool
    decreases fuel,
{
    if fuel == 0 || x < 0 || x >= preds.len() {
        false
    } else {
        match preds[x] {
            None => true,
            Some(p) => reaches_root(preds, p as int, (fuel - 1) as nat),
        }
    }
}

/// How many predecessors are followed from `x` before a root, within `fuel`.
pub open spec fn depth(preds: Seq<Option<usize>>, x: int, fuel: nat) -> nat
    decreases fuel,
{
    if fuel == 0 || x < 0 || x >= preds.len() {
        0
    } else {
        match preds[x] {
            None => 0,
            Some(p) => 1 + depth(preds, p as int, (fuel - 1) as nat),
        }
    }
}

proof fn lemma_depth_bound(preds: Seq<Option<usize>>, x: int, f: nat)
    requires
        reaches_root(preds, x, f),
    ensures
        depth(preds, x, f) < f,
    decreases f,
{
    if let Some(p) = preds[x] {
        lemma_depth_bound(preds, p as int, (f - 1) as nat);
    }
}

proof fn lemma_more_fuel(preds: Seq<Option<usize>>, x: int, f: nat, g: nat)
    requires
        reaches_root(preds, x, f),
        f <= g,
    ensures
        reaches_root(preds, x, g),
        depth(preds, x, g) == depth(preds, x, f),
    decreases f,
{
    if let Some(p) = preds[x] {
        lemma_more_fuel(preds, p as int, (f - 1) as nat, (g - 1) as nat);
    }
}

proof fn lemma_ranked_reaches_root(preds: Seq<Option<usize>>, rank: Seq<nat>, x: int)
    requires
        0 <= x < preds.len(),
        rank.len() == preds.len(),
        forall|y: int| 0 <= y < preds.len() && (#[trigger] preds[y]) is Some ==> (preds[y]->Some_0 as int) < preds.len(),
        forall|y: int| 0 <= y < preds.len() && (#[trigger] preds[y]) is Some ==> rank[preds[y]->Some_0 as int] < rank[y],
    ensures
        reaches_root(preds, x, rank[x] + 1),
    decreases rank[x],
{
    if let Some(p) = preds[x] {
        assert(preds[x] is Some);
        lemma_ranked_reaches_root(preds, rank, p as int);
        lemma_more_fuel(preds, p as int, rank[p as int] + 1, rank[x]);
    }
}

/// A forest is exactly a list of predecessors from every node of which the
/// predecessors lead to a root within as many steps as there are nodes.
proof fn lemma_forest_iff_roots(preds: Seq<Option<usize>>)
    ensures
        is_forest(preds) <==> (forall|x: int| 0 <= x < preds.len() ==> #[trigger] reaches_root(preds, x, preds.len())),
{
    let n = preds.len();
    if is_forest(preds) {
        let rank = choose|rank: Seq<nat>| is_ranking(preds, rank);
        assert forall|x: int| 0 <= x < preds.len() implies #[trigger] reaches_root(preds, x, preds.len()) by {
            lemma_ranked_reaches_root(preds, rank, x);
            lemma_more_fuel(preds, x, rank[x] + 1, n);
        }
    }
    if forall|x: int| 0 <= x < preds.len() ==> #[trigger] reaches_root(preds, x, preds.len()) {
        let rank = Seq::new(n, |x: int| depth(preds, x, n));
        assert forall|x: int| 0 <= x < preds.len() && (#[trigger] preds[x]) is Some implies (preds[x]->Some_0 as int) < preds.len() by {
            assert(reaches_root(preds, x, n));
            let p = preds[x]->Some_0 as int;
            assert(reaches_root(preds, p, (n - 1) as nat));
        }
        assert forall|x: int| 0 <= x < preds.len() implies #[trigger] rank[x] < preds.len() by {
            assert(reaches_root(preds, x, n));
            lemma_depth_bound(preds, x, n);
        }
        assert forall|x: int| 0 <= x < preds.len() && (#[trigger] preds[x]) is Some implies rank[preds[x]->Some_0 as int] < rank[x] by {
            assert(reaches_root(preds, x, n));
            let p = preds[x]->Some_0 as int;
            lemma_more_fuel(preds, p, (n - 1) as nat, n);
        }
        assert(is_ranking(preds, rank));
        assert(is_forest(preds));
    }
}

/// Whether `preds` form a forest (see [`is_forest`]).
pub fn check_forest(preds: &Vec<Option<usize>>) -> (b: bool)
    ensures
        b == is_forest(preds@),
{
    proof {
        lemma_forest_iff_roots(preds@);
    }
    let n = preds.len();
    let mut x: usize = 0;
    while x < n
        invariant
            n == preds@.len(),
            x <= n,
            forall|y: int| 0 <= y < x ==> #[trigger] reaches_root(preds@, y, n as nat),
        decreases n - x,
    {
        let mut cur: usize = x;
        let mut steps: usize = 0;
        let mut found = false;
        while steps < n && !found
            invariant
                n == preds@.len(),
                x < n,
                cur < n,
                steps <= n,
                !found ==> reaches_root(preds@, x as int, n as nat) == reaches_root(preds@, cur as int, (n - steps) as nat),
                found ==> reaches_root(preds@, x as int, n as nat),
            decreases n - steps + (if found { 0int } else { 1int }),
        {
            match preds[cur] {
                None => {
                    found = true;
                },
                Some(p) => {
                    if p >= n {
                        assert(!reaches_root(preds@, p as int, (n - steps - 1) as nat));
                        assert(!reaches_root(preds@, cur as int, (n - steps) as nat));
                        assert(!reaches_root(preds@, x as int, n as nat));
                        return false;
                    }
                    cur = p;
                    steps = steps + 1;
                },
            }
        }
        if !found {
            assert(steps == n);
            assert(!reaches_root(preds@, cur as int, 0));
            assert(!reaches_root(preds@, x as int, n as nat));
            proof {
                lemma_forest_iff_roots(preds@);
            }
            return false;
        }
        x = x + 1;
    }
    true
}

/// Whether shortest-path predecessors can be turned into a tree as
/// [`tree_from_paths`] asks: they form a forest, `me` and every index are
/// positions, the indexes are below `num_trees`, and `connected` has one entry
/// per position.
pub fn paths_fit(
    preds: &Vec<Option<usize>>,
    me: usize,
    indexes: &Vec<usize>,
    connected: &Vec<bool>,
    num_trees: usize,
) -> (b: bool)
    ensures
        b == (is_forest(preds@) && (me as int) < preds@.len() && connected@.len() == preds@.len() && forall|k: int|
            0 <= k < indexes@.len() ==> (#[trigger] indexes@[k] as int) < preds@.len() && (indexes@[k] as int) < num_trees),
{
    if me >= preds.len() || connected.len() != preds.len() {
        return false;
    }
    let mut k: usize = 0;
    while k < indexes.len()
        invariant
            k <= indexes@.len(),
            forall|j: int| 0 <= j < k ==> (#[trigger] indexes@[j] as int) < preds@.len() && (indexes@[j] as int) < num_trees,
        decreases indexes@.len() - k,
    {
        if indexes[k] >= preds.len() || indexes[k] >= num_trees {
            return false;
        }
        k = k + 1;
    }
    check_forest(preds)
}

/// Follow the predecessors from `cur` towards the root, for at most `fuel`
/// steps: the node whose predecessor is `me`, if the chain passes through `me`.
pub open spec fn walk(preds: Seq<Option<usize>>, me: usize, cur: int, fuel: nat) -> Option<usize>
    decreases fuel,
{
    if fuel == 0 || cur < 0 || cur >= preds.len() {
        None
    } else {
        match preds[cur] {
            None => None,
            Some(p) => if p == me {
                Some(cur as usize)
            } else {
                walk(preds, me, p as int, (fuel - 1) as nat)
            },
        }
    }
}

/// The nodes among `indexes`, in order, whose predecessor is `me`.
pub open spec fn spec_childs(preds: Seq<Option<usize>>, me: usize, indexes: Seq<usize>) -> Seq<usize>
    decreases indexes.len(),
{
    if indexes.len() == 0 {
        Seq::empty()
    } else {
        let rest = spec_childs(preds, me, indexes.drop_last());
        if preds[indexes.last() as int] == Some(me) { rest.push(indexes.last()) } else { rest }
    }
}

/// The direction towards `dest`: none for this node itself or an unreachable
/// node; the neighbour the shortest path from the root leaves this node by,
/// when it passes through this node; otherwise the parent.
pub open spec fn spec_direction(preds: Seq<Option<usize>>, me: usize, dest: int, connected: Seq<bool>) -> Option<usize> {
    if dest == me as int || !connected[dest] {
        None
    } else {
        match walk(preds, me, dest, preds.len()) {
            Some(d) => Some(d),
            None => preds[me as int],
        }
    }
}

/// The tree rooted where `preds` (the predecessors of the shortest paths from
/// the root) were computed, seen from `me`, over the nodes `indexes`.
pub open spec fn spec_tree(preds: Seq<Option<usize>>, me: usize, indexes: Seq<usize>, connected: Seq<bool>, num_trees: nat) -> TreeView {
    TreeView {
        parent: preds[me as int],
        childs: spec_childs(preds, me, indexes),
        directions: Seq::new(
            num_trees,
            |d: int| if indexes.contains(d as usize) { spec_direction(preds, me, d, connected) } else { None },
        ),
    }
}

fn direction_towards(preds: &Vec<Option<usize>>, me: usize, dest: usize) -> (d: Option<usize>)
    requires
        forall|x: int| 0 <= x < preds@.len() && (#[trigger] preds@[x]) is Some ==> (preds@[x]->Some_0 as int) < preds@.len(),
    ensures
        d == walk(preds@, me, dest as int, preds@.len()),
{
    let n = preds.len();
    let mut current = dest;
    let mut fuel = n;
    while fuel > 0 && current < n
        invariant
            n == preds@.len(),
            fuel <= n,
            forall|x: int| 0 <= x < preds@.len() && (#[trigger] preds@[x]) is Some ==> (preds@[x]->Some_0 as int) < preds@.len(),
            walk(preds@, me, dest as int, n as nat) == walk(preds@, me, current as int, fuel as nat),
        decreases fuel,
    {
        match preds[current] {
            None => {
                return None;
            },
            Some(parent) => {
                if parent == me {
                    return Some(current);
                }
                current = parent;
            },
        }
        fuel = fuel - 1;
    }
    None
}

/// Build the tree rooted where `preds` were computed, seen from `me`.
///
/// The parent is `me`'s predecessor; the children are the nodes whose
/// predecessor is `me`; the direction towards each connected node is the
/// node after `me` on its shortest path from the root, or the parent when
/// that path does not pass through `me`.
pub fn tree_from_paths(
    preds: &Vec<Option<usize>>,
    me: usize,
    indexes: &Vec<usize>,
    connected: &Vec<bool>,
    num_trees: usize,
) -> (tree: Tree)
    requires
        is_forest(preds@),
        (me as int) < preds@.len(),
        connected@.len() == preds@.len(),
        forall|k: int| 0 <= k < indexes@.len() ==> (#[trigger] indexes@[k] as int) < preds@.len() && (indexes@[k] as int) < num_trees,
    ensures
        tree@ == spec_tree(preds@, me, indexes@, connected@, num_trees as nat),
{
    let parent = preds[me];
    let mut childs: Vec<usize> = Vec::new();
    let mut i: usize = 0;
    while i < indexes.len()
        invariant
            i <= indexes@.len(),
            (me as int) < preds@.len(),
            forall|k: int| 0 <= k < indexes@.len() ==> (#[trigger] indexes@[k] as int) < preds@.len(),
            childs@ == spec_childs(preds@, me, indexes@.take(i as int)),
        decreases indexes@.len() - i,
    {
        assert(indexes@.take(i + 1).drop_last() =~= indexes@.take(i as int));
        let idx = indexes[i];
        if let Some(p) = preds[idx] {
            if p == me {
                childs.push(idx);
            }
        }
        i = i + 1;
    }
    assert(indexes@.take(indexes@.len() as int) =~= indexes@);
    let mut directions: Vec<Option<usize>> = Vec::new();
    let mut k: usize = 0;
    while k < num_trees
        invariant
            k <= num_trees,
            directions@.len() == k,
            forall|j: int| 0 <= j < k ==> directions@[j] is None,
        decreases num_trees - k,
    {
        directions.push(None);
        k = k + 1;
    }
    let mut i: usize = 0;
    while i < indexes.len()
        invariant
            i <= indexes@.len(),
            is_forest(preds@),
            (me as int) < preds@.len(),
            parent == preds@[me as int],
            connected@.len() == preds@.len(),
            forall|k: int| 0 <= k < indexes@.len() ==> (#[trigger] indexes@[k] as int) < preds@.len() && (indexes@[k] as int) < num_trees,
            directions@.len() == num_trees,
            forall|d: int| 0 <= d < num_trees ==> #[trigger] directions@[d] == (if indexes@.take(i as int).contains(d as usize) {
                spec_direction(preds@, me, d, connected@)
            } else {
                None
            }),
        decreases indexes@.len() - i,
    {
        let dest = indexes[i];
        let ghost before = directions@;
        if dest != me && connected[dest] {
            let d = match direction_towards(preds, me, dest) {
                Some(d) => Some(d),
                None => parent,
            };
            directions.set(dest, d);
        }
        proof {
            assert forall|d: int| 0 <= d < num_trees implies #[trigger] directions@[d] == (if indexes@.take(i + 1).contains(d as usize) {
                spec_direction(preds@, me, d, connected@)
            } else {
                None
            }) by {
                if indexes@.take(i + 1).contains(d as usize) && !indexes@.take(i as int).contains(d as usize) {
                    let m = choose|m: int| 0 <= m < i + 1 && #[trigger] indexes@.take(i + 1)[m] == d as usize;
                    if m < i {
                        assert(indexes@.take(i as int)[m] == d as usize);
                    }
                    assert(d == dest as int);
                }
                if indexes@.take(i as int).contains(d as usize) {
                    let m = choose|m: int| 0 <= m < i && #[trigger] indexes@.take(i as int)[m] == d as usize;
                    assert(indexes@.take(i + 1)[m] == d as usize);
                }
                if d == dest as int {
                    assert(indexes@.take(i + 1)[i as int] == dest);
                }
            }
        }
        i = i + 1;
    }
    assert(indexes@.take(indexes@.len() as int) =~= indexes@);
    let tree = Tree { parent, childs, directions };
    assert(tree@.directions =~= spec_tree(preds@, me, indexes@, connected@, num_trees as nat).directions);
    tree
}

/// The children each tree gained: for a tree that existed before, its
/// children that were not children before; for a new tree, all of them.
pub open spec fn spec_new_childs(old_childs: Seq<Seq<usize>>, trees: Seq<TreeView>) -> Seq<Seq<usize>> {
    Seq::new(
        trees.len(),
        |i: int|
            if i < old_childs.len() {
                trees[i].childs.filter(|c: usize| !old_childs[i].contains(c))
            } else {
                trees[i].childs
            },
    )
}

fn gained(childs: &Vec<usize>, old: &Vec<usize>) -> (r: Vec<usize>)
    ensures
        r@ == childs@.filter(|c: usize| !old@.contains(c)),
{
    let mut r: Vec<usize> = Vec::new();
    let mut i: usize = 0;
    while i < childs.len()
        invariant
            i <= childs@.len(),
            r@ == childs@.take(i as int).filter(|c: usize| !old@.contains(c)),
        decreases childs@.len() - i,
    {
        let c = childs[i];
        let mut found = false;
        let mut k: usize = 0;
        while k < old.len()
            invariant
                k <= old@.len(),
                found == exists|m: int| 0 <= m < k && old@[m] == c,
            decreases old@.len() - k,
        {
            if old[k] == c {
                found = true;
            }
            k = k + 1;
        }
        assert(found == old@.contains(c));
        assert(childs@.take(i + 1).drop_last() =~= childs@.take(i as int));
        reveal_with_fuel(Seq::filter, 1);
        if !found {
            r.push(c);
        }
        i = i + 1;
    }
    assert(childs@.take(childs@.len() as int) =~= childs@);
    r
}

fn copy_indexes(v: &Vec<usize>) -> (r: Vec<usize>)
    ensures
        r@ == v@,
{
    let mut r: Vec<usize> = Vec::new();
    let mut i: usize = 0;
    while i < v.len()
        invariant
            i <= v@.len(),
            r@ == v@.take(i as int),
        decreases v@.len() - i,
    {
        r.push(v[i]);
        i = i + 1;
        assert(r@ =~= v@.take(i as int));
    }
    assert(v@.take(v@.len() as int) =~= v@);
    r
}

/// The children of each tree, in order.
pub open spec fn childs_of_trees(trees: Seq<TreeView>) -> Seq<Seq<usize>> {
    Seq::new(trees.len(), |i: int| trees[i].childs)
}

/// Routes are a function of the graph: trees computed again over an unchanged
/// graph gain no children against themselves.
pub proof fn lemma_new_childs_settled(trees: Seq<TreeView>)
    ensures
        forall|i: int|
            0 <= i < trees.len() ==> (#[trigger] spec_new_childs(childs_of_trees(trees), trees)[i]).len() == 0,
{
    let old = childs_of_trees(trees);
    assert forall|i: int| 0 <= i < trees.len() implies (#[trigger] spec_new_childs(old, trees)[i]).len() == 0 by {
        let c = trees[i].childs;
        let f = c.filter(|x: usize| !old[i].contains(x));
        if f.len() > 0 {
            assert(f.contains(f[0]));
            c.lemma_filter_contains_rev(|x: usize| !old[i].contains(x), f[0]);
            c.lemma_filter_pred(|x: usize| !old[i].contains(x), 0);
        }
    }
}

/// The children each tree gained, given the children of the trees before.
pub fn new_childs(old_childs: &Vec<Vec<usize>>, trees: &Vec<Tree>) -> (r: Vec<Vec<usize>>)
    requires
        old_childs@.len() <= trees@.len(),
    ensures
        r@.len() == trees@.len(),
        forall|i: int| 0 <= i < r@.len() ==> (#[trigger] r@[i])@ == spec_new_childs(
            old_childs@.map_values(|v: Vec<usize>| v@),
            trees@.map_values(|t: Tree| t@),
        )[i],
{
    let mut r: Vec<Vec<usize>> = Vec::new();
    let mut i: usize = 0;
    while i < trees.len()
        invariant
            i <= trees@.len(),
            old_childs@.len() <= trees@.len(),
            r@.len() == i,
            forall|j: int| 0 <= j < i ==> (#[trigger] r@[j])@ == spec_new_childs(
                old_childs@.map_values(|v: Vec<usize>| v@),
                trees@.map_values(|t: Tree| t@),
            )[j],
        decreases trees@.len() - i,
    {
        let g = if i < old_childs.len() {
            gained(&trees[i].childs, &old_childs[i])
        } else {
            copy_indexes(&trees[i].childs)
        };
        r.push(g);
        i = i + 1;
    }
    r
}


/// Following the predecessors only ever stops at a child of `me`.
proof fn lemma_walk_ends_at_child(preds: Seq<Option<usize>>, me: usize, cur: int, fuel: nat)
    requires
        preds.len() <= usize::MAX,
    ensures
        walk(preds, me, cur, fuel) matches Some(d) ==> 0 <= d < preds.len() && preds[d as int] == Some(me),
    decreases fuel,
{
    if fuel > 0 && 0 <= cur < preds.len() {
        if let Some(p) = preds[cur] {
            if p != me {
                lemma_walk_ends_at_child(preds, me, p as int, (fuel - 1) as nat);
            }
        }
    }
}

/// The node reached from `x` by following `k` predecessors, if every one
/// of them is a position.
pub open spec fn ancestor(preds: Seq<Option<usize>>, x: int, k: nat) -> Option<int>
    decreases k,
{
    if x < 0 || x >= preds.len() {
        None
    } else if k == 0 {
        Some(x)
    } else {
        match preds[x] {
            Some(p) => ancestor(preds, p as int, (k - 1) as nat),
            None => None,
        }
    }
}

proof fn lemma_ancestor_rank(preds: Seq<Option<usize>>, rank: Seq<nat>, x: int, k: nat)
    requires
        is_ranking(preds, rank),
        ancestor(preds, x, k) is Some,
    ensures
        0 <= x < preds.len(),
        rank[ancestor(preds, x, k)->0] + k <= rank[x],
    decreases k,
{
    if k > 0 {
        let p = preds[x]->0 as int;
        assert(preds[x] is Some);
        lemma_ancestor_rank(preds, rank, p, (k - 1) as nat);
    }
}

proof fn lemma_ancestor_prefix(preds: Seq<Option<usize>>, x: int, k: nat, j: nat)
    requires
        ancestor(preds, x, k) is Some,
        j <= k,
    ensures
        ancestor(preds, x, j) is Some,
        0 <= ancestor(preds, x, k)->0 < preds.len(),
    decreases k,
{
    if k > 0 {
        let p = preds[x]->0 as int;
        if j > 0 {
            lemma_ancestor_prefix(preds, p, (k - 1) as nat, (j - 1) as nat);
        } else {
            lemma_ancestor_prefix(preds, p, (k - 1) as nat, 0);
        }
    }
}

proof fn lemma_ancestor_compose(preds: Seq<Option<usize>>, x: int, a: nat, b: nat)
    requires
        ancestor(preds, x, a) is Some,
    ensures
        ancestor(preds, x, a + b) == ancestor(preds, ancestor(preds, x, a)->0, b),
    decreases a,
{
    if a > 0 {
        let p = preds[x]->0 as int;
        lemma_ancestor_compose(preds, p, (a - 1) as nat, b);
        assert((a - 1) as nat + b == (a + b - 1) as nat);
    }
}

proof fn lemma_walk_hits(preds: Seq<Option<usize>>, me: usize, x: int, fuel: nat)
    requires
        preds.len() <= usize::MAX,
    ensures
        walk(preds, me, x, fuel) matches Some(c) ==> exists|k: nat|
            #![trigger ancestor(preds, x, k)]
            ancestor(preds, x, k) == Some(c as int) && preds[c as int] == Some(me),
    decreases fuel,
{
    if fuel > 0 && 0 <= x < preds.len() {
        if let Some(p) = preds[x] {
            if p == me {
                assert(ancestor(preds, x, 0) == Some(x));
                assert(walk(preds, me, x, fuel) == Some(x as usize));
                assert(ancestor(preds, x, 0) == Some(x as usize as int) && preds[x as usize as int] == Some(me));
            } else {
                lemma_walk_hits(preds, me, p as int, (fuel - 1) as nat);
                if let Some(c) = walk(preds, me, x, fuel) {
                    assert(walk(preds, me, p as int, (fuel - 1) as nat) == Some(c));
                    let k = choose|k: nat| #![trigger ancestor(preds, p as int, k)]
                        ancestor(preds, p as int, k) == Some(c as int) && preds[c as int] == Some(me);
                    assert(ancestor(preds, x, k + 1) == ancestor(preds, p as int, k));
                    assert(ancestor(preds, x, k + 1) == Some(c as int) && preds[c as int] == Some(me));
                }
            }
        }
    }
}

proof fn lemma_walk_finds(preds: Seq<Option<usize>>, me: usize, x: int, k: nat, c: int, fuel: nat)
    requires
        ancestor(preds, x, k) == Some(c),
        preds[c] == Some(me),
        forall|j: nat| j < k ==> ((#[trigger] ancestor(preds, x, j)) matches Some(y) && preds[y] != Some(me)),
        k < fuel,
    ensures
        walk(preds, me, x, fuel) == Some(c as usize),
    decreases k,
{
    if k == 0 {
    } else {
        assert(ancestor(preds, x, 0) == Some(x));
        let p = preds[x]->0 as int;
        assert forall|j: nat| j < (k - 1) as nat implies ((#[trigger] ancestor(preds, p, j)) matches Some(y)
            && preds[y] != Some(me)) by {
            assert(ancestor(preds, x, j + 1) == ancestor(preds, p, j));
        }
        lemma_walk_finds(preds, me, p, (k - 1) as nat, c, (fuel - 1) as nat);
    }
}

/// Traffic for a connected destination whose shortest path from the root
/// passes through this node goes down to the node after this one on that
/// path: if following the predecessors from `dest` reaches a node `c` whose
/// predecessor is `me`, the direction towards `dest` is `c`.
pub proof fn lemma_direction_follows_the_path(
    preds: Seq<Option<usize>>,
    me: usize,
    indexes: Seq<usize>,
    connected: Seq<bool>,
    num_trees: nat,
    dest: int,
    k: nat,
    c: int,
)
    requires
        is_forest(preds),
        preds.len() <= usize::MAX,
        (me as int) < preds.len(),
        0 <= dest < num_trees,
        indexes.contains(dest as usize),
        dest != me as int,
        connected[dest],
        ancestor(preds, dest, k) == Some(c),
        preds[c] == Some(me),
    ensures
        spec_tree(preds, me, indexes, connected, num_trees).directions[dest] == Some(c as usize),
{
    let rank = choose|rank: Seq<nat>| is_ranking(preds, rank);
    lemma_ancestor_rank(preds, rank, dest, k);
    // The hit at step k is the first one: an earlier hit would reach `me`
    // twice along the chain, and ranks strictly fall along it.
    lemma_ancestor_prefix(preds, dest, k, k);
    assert(ancestor(preds, me as int, 0) == Some(me as int));
    assert(ancestor(preds, c, 1) == Some(me as int));
    lemma_ancestor_compose(preds, dest, k, 1);
    assert forall|j: nat| j < k implies ((#[trigger] ancestor(preds, dest, j)) matches Some(y) && preds[y] != Some(me)) by {
        lemma_ancestor_prefix(preds, dest, k, j);
        lemma_ancestor_prefix(preds, dest, j, j);
        lemma_ancestor_compose(preds, dest, j, (k - j) as nat);
        assert(j + (k - j) as nat == k);
        let y = ancestor(preds, dest, j)->0;
        if preds[y] == Some(me) {
            assert(ancestor(preds, me as int, 0) == Some(me as int));
            assert(ancestor(preds, y, 1) == Some(me as int));
            lemma_ancestor_compose(preds, dest, j, 1);
            lemma_ancestor_compose(preds, dest, j + 1, (k - j) as nat);
            assert((j + 1) + (k - j) as nat == k + 1);
            lemma_ancestor_rank(preds, rank, me as int, (k - j) as nat);
        }
    }
    assert(rank[dest] < preds.len());
    lemma_walk_finds(preds, me, dest, k, c, preds.len());
}

/// Traffic for a connected destination whose shortest path does not pass
/// through this node goes up to the parent: if no node reached by following
/// the predecessors from `dest` has `me` as its predecessor, the direction
/// towards `dest` is `me`'s predecessor.
pub proof fn lemma_direction_goes_up_otherwise(
    preds: Seq<Option<usize>>,
    me: usize,
    indexes: Seq<usize>,
    connected: Seq<bool>,
    num_trees: nat,
    dest: int,
)
    requires
        preds.len() <= usize::MAX,
        (me as int) < preds.len(),
        0 <= dest < num_trees,
        indexes.contains(dest as usize),
        dest != me as int,
        connected[dest],
        forall|k: nat| #![trigger ancestor(preds, dest, k)]
            ancestor(preds, dest, k) matches Some(c) ==> preds[c] != Some(me),
    ensures
        spec_tree(preds, me, indexes, connected, num_trees).directions[dest] == preds[me as int],
{
    lemma_walk_hits(preds, me, dest, preds.len());
    if let Some(c) = walk(preds, me, dest, preds.len()) {
        let k = choose|k: nat| #![trigger ancestor(preds, dest, k)]
            ancestor(preds, dest, k) == Some(c as int) && preds[c as int] == Some(me);
    }
}

/// In every tree, the direction towards a node is a neighbour of this node in
/// that tree: one of its children, or its parent.
pub proof fn lemma_direction_is_child_or_parent(
    preds: Seq<Option<usize>>,
    me: usize,
    indexes: Seq<usize>,
    connected: Seq<bool>,
    num_trees: nat,
    dest: int,
)
    requires
        0 <= dest < num_trees,
        preds.len() <= usize::MAX,
    ensures
        ({
            let t = spec_tree(preds, me, indexes, connected, num_trees);
            t.directions[dest] matches Some(d) ==> Some(d) == t.parent || preds[d as int] == Some(me)
        }),
{
    lemma_walk_ends_at_child(preds, me, dest, preds.len());
}

// ---------------------------------------------------------------------------
// Next hops of a route
// ---------------------------------------------------------------------------

/// Where a tree sends traffic for the node `dest`: `dest`'s position in the
/// graph, and the present neighbour the tree's direction towards it names.
pub open spec fn spec_hop(nodes: Seq<Option<Node>>, directions: Seq<Option<usize>>, dest: PeerId) -> Option<(int, PeerId)> {
    match find_node(nodes, dest, 0) {
        Some(i) => if i < directions.len() && directions[i] is Some && directions[i]->0
            < nodes.len() && nodes[directions[i]->0 as int] is Some {
            Some((i, nodes[directions[i]->0 as int]->0.pid))
        } else {
            None
        },
        None => None,
    }
}

/// The neighbours, in order, that a tree sends traffic to for the
/// subscribers `subs`; a subscriber the tree has no way to is left out.
pub open spec fn spec_sub_hops(nodes: Seq<Option<Node>>, directions: Seq<Option<usize>>, subs: Seq<PeerId>) -> Seq<PeerId>
    decreases subs.len(),
{
    if subs.len() == 0 {
        Seq::empty()
    } else {
        let rest = spec_sub_hops(nodes, directions, subs.drop_last());
        match spec_hop(nodes, directions, subs.last()) {
            Some(h) => rest.push(h.1),
            None => rest,
        }
    }
}

/// Where the tree `directions` sends traffic for `dest`: `dest`'s position,
/// and the neighbour to go to.
fn hop(nodes: &Vec<Option<Node>>, directions: &Vec<Option<usize>>, dest: &PeerId) -> (r: Option<(usize, PeerId)>)
    ensures
        r matches Some(h) ==> spec_hop(nodes@, directions@, *dest) == Some((h.0 as int, h.1)),
        r is None ==> spec_hop(nodes@, directions@, *dest) is None,
{
    let i = match get_idx(nodes, dest) {
        Some(i) => i,
        None => return None,
    };
    proof {
        lemma_find_node(nodes@, *dest, 0);
    }
    if i >= directions.len() {
        return None;
    }
    let d = match directions[i] {
        Some(d) => d,
        None => return None,
    };
    if d >= nodes.len() {
        return None;
    }
    match &nodes[d] {
        Some(n) => Some((i, n.pid)),
        None => None,
    }
}

/// The neighbours, in order, that the tree of node `source` sends data to
/// for the subscribers `subs`, as [`spec_sub_hops`] says; none while that
/// tree is not computed yet.
pub fn sub_next_hops(nodes: &Vec<Option<Node>>, trees: &Vec<Tree>, source: usize, subs: &Vec<PeerId>) -> (hops: Vec<PeerId>)
    ensures
        source < trees@.len() ==> hops@ == spec_sub_hops(nodes@, trees@[source as int].directions@, subs@),
        source >= trees@.len() ==> hops@.len() == 0,
{
    let mut hops: Vec<PeerId> = Vec::new();
    if source >= trees.len() {
        return hops;
    }
    let directions = &trees[source].directions;
    let mut k: usize = 0;
    while k < subs.len()
        invariant
            source < trees@.len(),
            directions == trees@[source as int].directions,
            k <= subs@.len(),
            hops@ == spec_sub_hops(nodes@, directions@, subs@.subrange(0, k as int)),
        decreases subs@.len() - k,
    {
        let h = hop(nodes, directions, &subs[k]);
        proof {
            let s = subs@.subrange(0, k + 1);
            assert(s.drop_last() =~= subs@.subrange(0, k as int));
            assert(s.last() == subs@[k as int]);
        }
        match h {
            Some((_, pid)) => hops.push(pid),
            None => {},
        }
        k = k + 1;
    }
    assert(subs@.subrange(0, subs@.len() as int) =~= subs@);
    hops
}

/// A queryable a node registered, as a query route reads it.
#[derive(Debug, Clone, Copy, PartialEq, Eq, Structural)]
pub struct QablEntry {
    /// The node that registered it.
    pub node: PeerId,
    /// Its kind.
    pub kind: u64,
    /// How many complete queryables it stands for.
    pub complete: u64,
}

/// Where a query goes for one queryable: the neighbour to send it to, the
/// queryable node's position in the graph (where its distance is found),
/// its kind, and its completeness as the route counts it.
#[derive(Debug, Clone, Copy, PartialEq, Eq, Structural)]
pub struct QablHop {
    pub next: PeerId,
    pub index: usize,
    pub kind: u64,
    pub complete: u64,
}

/// The hop of one queryable: the tree knows a way to its node, the neighbour
/// has a face (`faces` are the identifiers of the nodes with one), and its
/// distance is known (`distances_len` distances are); completeness counts
/// only where `complete` says so.
pub open spec fn spec_qabl_hop(
    nodes: Seq<Option<Node>>,
    directions: Seq<Option<usize>>,
    faces: Seq<PeerId>,
    distances_len: nat,
    complete: bool,
    e: QablEntry,
) -> Option<QablHop> {
    match spec_hop(nodes, directions, e.node) {
        Some(h) => if faces.contains(h.1) && h.0 < distances_len {
            Some(QablHop { next: h.1, index: h.0 as usize, kind: e.kind, complete: if complete { e.complete } else { 0 } })
        } else {
            None
        },
        None => None,
    }
}

/// The hops of the queryables, in order, up to the first one that has none:
/// the route stops there, and the queryables after it are not considered.
pub open spec fn spec_qabl_hops(
    nodes: Seq<Option<Node>>,
    directions: Seq<Option<usize>>,
    faces: Seq<PeerId>,
    distances_len: nat,
    complete: bool,
    qabls: Seq<QablEntry>,
) -> Seq<QablHop>
    decreases qabls.len(),
{
    if qabls.len() == 0 {
        Seq::empty()
    } else {
        match spec_qabl_hop(nodes, directions, faces, distances_len, complete, qabls[0]) {
            Some(h) => seq![h] + spec_qabl_hops(nodes, directions, faces, distances_len, complete, qabls.drop_first()),
            None => Seq::empty(),
        }
    }
}

proof fn lemma_qabl_hops_step(
    nodes: Seq<Option<Node>>,
    directions: Seq<Option<usize>>,
    faces: Seq<PeerId>,
    distances_len: nat,
    complete: bool,
    qabls: Seq<QablEntry>,
    k: int,
)
    requires
        0 <= k < qabls.len(),
        forall|j: int| 0 <= j < k ==> (#[trigger] spec_qabl_hop(nodes, directions, faces, distances_len, complete, qabls[j])) is Some,
    ensures
        spec_qabl_hops(nodes, directions, faces, distances_len, complete, qabls.subrange(k, qabls.len() as int)) == (
        match spec_qabl_hop(nodes, directions, faces, distances_len, complete, qabls[k]) {
            Some(h) => seq![h] + spec_qabl_hops(nodes, directions, faces, distances_len, complete, qabls.subrange(k + 1, qabls.len() as int)),
            None => Seq::<QablHop>::empty(),
        }),
{
    let s = qabls.subrange(k, qabls.len() as int);
    assert(s[0] == qabls[k]);
    assert(s.drop_first() =~= qabls.subrange(k + 1, qabls.len() as int));
}

/// Where a query goes for each queryable of `qabls`, over the tree of node
/// `source`, as [`spec_qabl_hops`] says: in order, up to the first queryable
/// whose node the tree has no way to, whose neighbour has no face among
/// `faces`, or whose distance is not among the `distances_len` known. None
/// while that tree is not computed yet.
pub fn qabl_next_hops(
    nodes: &Vec<Option<Node>>,
    trees: &Vec<Tree>,
    source: usize,
    faces: &Vec<PeerId>,
    distances_len: usize,
    complete: bool,
    qabls: &Vec<QablEntry>,
) -> (hops: Vec<QablHop>)
    ensures
        source < trees@.len() ==> hops@ == spec_qabl_hops(
            nodes@,
            trees@[source as int].directions@,
            faces@,
            distances_len as nat,
            complete,
            qabls@,
        ),
        source >= trees@.len() ==> hops@.len() == 0,
{
    let mut hops: Vec<QablHop> = Vec::new();
    if source >= trees.len() {
        return hops;
    }
    let directions = &trees[source].directions;
    let ghost full = spec_qabl_hops(nodes@, directions@, faces@, distances_len as nat, complete, qabls@);
    assert(qabls@.subrange(0, qabls@.len() as int) =~= qabls@);
    assert(hops@ + full =~= full);
    let mut k: usize = 0;
    while k < qabls.len()
        invariant
            source < trees@.len(),
            directions == trees@[source as int].directions,
            k <= qabls@.len(),
            forall|j: int| 0 <= j < k ==> (#[trigger] spec_qabl_hop(nodes@, directions@, faces@, distances_len as nat, complete, qabls@[j])) is Some,
            full == hops@ + spec_qabl_hops(nodes@, directions@, faces@, distances_len as nat, complete, qabls@.subrange(k as int, qabls@.len() as int)),
            full == spec_qabl_hops(nodes@, directions@, faces@, distances_len as nat, complete, qabls@),
        decreases qabls@.len() - k,
    {
        let e = qabls[k];
        proof {
            lemma_qabl_hops_step(nodes@, directions@, faces@, distances_len as nat, complete, qabls@, k as int);
        }
        let h = match hop(nodes, directions, &e.node) {
            Some(h) => h,
            None => {
                assert(hops@ + Seq::<QablHop>::empty() =~= hops@);
                return hops;
            },
        };
        if !contains_pid(faces, &h.1) || h.0 >= distances_len {
            assert(hops@ + Seq::<QablHop>::empty() =~= hops@);
            return hops;
        }
        let q = QablHop { next: h.1, index: h.0, kind: e.kind, complete: if complete { e.complete } else { 0 } };
        let ghost prev = hops@;
        hops.push(q);
        proof {
            let rest = spec_qabl_hops(nodes@, directions@, faces@, distances_len as nat, complete, qabls@.subrange(k + 1, qabls@.len() as int));
            assert(hops@ + rest =~= prev + (seq![q] + rest));
        }
        k = k + 1;
    }
    assert(qabls@.subrange(qabls@.len() as int, qabls@.len() as int) =~= Seq::<QablEntry>::empty());
    assert(hops@ + Seq::<QablHop>::empty() =~= hops@);
    hops
}

// ---------------------------------------------------------------------------
// Links and propagation
// ---------------------------------------------------------------------------

/// The least link index not in use.
pub fn free_link_index(used: &Vec<usize>) -> (idx: usize)
    requires
        used@.len() < usize::MAX,
    ensures
        !used@.contains(idx),
        forall|j: usize| j < idx ==> used@.contains(j),
{
    let mut idx: usize = 0;
    loop
        invariant
            used@.len() < usize::MAX,
            idx <= used@.len(),
            forall|j: usize| j < idx ==> used@.contains(j),
        decreases used@.len() - idx,
    {
        let mut found = false;
        let mut k: usize = 0;
        while k < used.len()
            invariant
                k <= used@.len(),
                found == exists|m: int| 0 <= m < k && used@[m] == idx,
            decreases used@.len() - k,
        {
            if used[k] == idx {
                found = true;
            }
            k = k + 1;
        }
        if !found {
            assert(!used@.contains(idx)) by {
                if used@.contains(idx) {
                    let m = choose|m: int| 0 <= m < used@.len() && used@[m] == idx;
                }
            }
            return idx;
        }
        proof {
            // the indexes 0..=idx are all in use, so there are more than idx of them
            lemma_range_in_use(used@, idx as int + 1);
        }
        idx = idx + 1;
    }
}

proof fn lemma_range_in_use(used: Seq<usize>, n: int)
    requires
        0 <= n <= usize::MAX,
        forall|j: usize| j < n ==> used.contains(j),
    ensures
        n <= used.len(),
{
    let range = vstd::set_lib::set_int_range(0, n);
    let s = used.map_values(|u: usize| u as int).to_set();
    vstd::set_lib::lemma_int_range(0, n);
    assert forall|j: int| range.contains(j) implies s.contains(j) by {
        assert(used.contains(j as usize));
        let m = choose|m: int| 0 <= m < used.len() && used[m] == j as usize;
        assert(used[m] as int == j);
        assert(used.map_values(|u: usize| u as int)[m] == used[m] as int);
    }
    used.map_values(|u: usize| u as int).lemma_cardinality_of_set();
    vstd::set_lib::lemma_len_subset(range, s);
}

/// Which network a link to a node joins.
#[derive(Debug, Clone, Copy, PartialEq, Eq, Structural)]
pub enum NetKind {
    /// The routers' network.
    Routers,
    /// The link-state peers' network.
    Peers,
}

/// The network a link between a `local` node and a `remote` one belongs to:
/// routers link in the routers' network, a peer links with routers and peers
/// in the peers' network, and a router links with peers there too; any link
/// with a client joins none.
pub open spec fn spec_net_for(local: WhatAmI, remote: WhatAmI) -> Option<NetKind> {
    match (local, remote) {
        (WhatAmI::Router, WhatAmI::Router) => Some(NetKind::Routers),
        (WhatAmI::Router, WhatAmI::Peer) => Some(NetKind::Peers),
        (WhatAmI::Peer, WhatAmI::Router) => Some(NetKind::Peers),
        (WhatAmI::Peer, WhatAmI::Peer) => Some(NetKind::Peers),
        _ => None::<NetKind>,
    }
}

pub fn net_for(local: WhatAmI, remote: WhatAmI) -> (k: Option<NetKind>)
    ensures
        k == spec_net_for(local, remote),
{
    match (local, remote) {
        (WhatAmI::Router, WhatAmI::Router) => Some(NetKind::Routers),
        (WhatAmI::Router, WhatAmI::Peer) => Some(NetKind::Peers),
        (WhatAmI::Peer, WhatAmI::Router) => Some(NetKind::Peers),
        (WhatAmI::Peer, WhatAmI::Peer) => Some(NetKind::Peers),
        _ => None,
    }
}

/// Which trees a batch of link changes leaves to recompute: the routers'
/// trees when a change concerns the routers' network, the peers' trees when
/// one concerns the peers' network; `kinds` are the kinds of the nodes at the
/// other end of the changes.
pub fn trees_to_compute(local: WhatAmI, kinds: &Vec<WhatAmI>) -> (r: (bool, bool))
    ensures
        r.0 == exists|i: int|
            0 <= i < kinds@.len() && spec_net_for(local, #[trigger] kinds@[i]) == Some(
                NetKind::Routers,
            ),
        r.1 == exists|i: int|
            0 <= i < kinds@.len() && spec_net_for(local, #[trigger] kinds@[i]) == Some(
                NetKind::Peers,
            ),
{
    let mut routers = false;
    let mut peers = false;
    let mut i: usize = 0;
    while i < kinds.len()
        invariant
            i <= kinds@.len(),
            routers == exists|j: int|
                0 <= j < i && spec_net_for(local, #[trigger] kinds@[j]) == Some(NetKind::Routers),
            peers == exists|j: int|
                0 <= j < i && spec_net_for(local, #[trigger] kinds@[j]) == Some(NetKind::Peers),
        decreases kinds@.len() - i,
    {
        match net_for(local, kinds[i]) {
            Some(NetKind::Routers) => {
                routers = true;
            },
            Some(NetKind::Peers) => {
                peers = true;
            },
            None => {},
        }
        i = i + 1;
    }
    (routers, peers)
}

/// What a batched routing update asks for.
#[derive(Debug, Clone, Copy, PartialEq, Eq, Structural)]
pub enum BatchEventKind {
    /// A new link to a neighbour, whose identifier is to be sent back.
    AddLink,
    /// A link that went away.
    RemoveLink,
    /// Link states received from a neighbour.
    LinkStates,
}

/// One request of a batch: what it asks for, and the kind of the node at the
/// other end, or `None` where its transport closed before the batch ran.
#[derive(Debug, Clone, Copy, PartialEq, Eq, Structural)]
pub struct BatchEvent {
    pub kind: BatchEventKind,
    pub remote: Option<WhatAmI>,
}

/// What a batch does: the network each request applies to (`None`: it is
/// skipped), for each request whether a link identifier is sent back, and
/// which trees are recomputed afterwards.
#[derive(Debug, Clone, PartialEq, Eq)]
pub struct BatchPlan {
    pub nets: Vec<Option<NetKind>>,
    pub reply_link_id: Vec<bool>,
    pub routers_trees: bool,
    pub peers_trees: bool,
}

/// The network a request of a batch applies to, on a node of kind `local`.
pub open spec fn event_net(local: WhatAmI, e: BatchEvent) -> Option<NetKind> {
    match e.remote {
        Some(w) => spec_net_for(local, w),
        None => None,
    }
}

/// Plan a batch of routing updates on a node of kind `local`: each request
/// applies to the network of the link it concerns, and is skipped where its
/// transport closed or the link joins no network; a new link that is added
/// gets its identifier sent back; the routers' and the peers' trees are
/// recomputed when some request applied to their network.
pub fn batch_plan(local: WhatAmI, events: &Vec<BatchEvent>) -> (p: BatchPlan)
    ensures
        p.nets@.len() == events@.len(),
        p.reply_link_id@.len() == events@.len(),
        forall|i: int| 0 <= i < events@.len() ==> #[trigger] p.nets@[i] == event_net(local, events@[i]),
        forall|i: int|
            0 <= i < events@.len() ==> #[trigger] p.reply_link_id@[i] == (events@[i].kind == BatchEventKind::AddLink
                && event_net(local, events@[i]) is Some),
        p.routers_trees == exists|i: int|
            0 <= i < events@.len() && event_net(local, #[trigger] events@[i]) == Some(NetKind::Routers),
        p.peers_trees == exists|i: int|
            0 <= i < events@.len() && event_net(local, #[trigger] events@[i]) == Some(NetKind::Peers),
{
    let mut nets: Vec<Option<NetKind>> = Vec::new();
    let mut reply_link_id: Vec<bool> = Vec::new();
    let mut kinds: Vec<WhatAmI> = Vec::new();
    let ghost mut idx: Seq<int> = Seq::empty();
    let mut k: usize = 0;
    while k < events.len()
        invariant
            k <= events@.len(),
            nets@.len() == k,
            reply_link_id@.len() == k,
            forall|i: int| 0 <= i < k ==> #[trigger] nets@[i] == event_net(local, events@[i]),
            forall|i: int|
                0 <= i < k ==> #[trigger] reply_link_id@[i] == (events@[i].kind == BatchEventKind::AddLink
                    && event_net(local, events@[i]) is Some),
            idx.len() == kinds@.len(),
            forall|j: int|
                0 <= j < kinds@.len() ==> 0 <= #[trigger] idx[j] < k && events@[idx[j]].remote == Some(kinds@[j]),
            forall|i: int|
                0 <= i < k && (#[trigger] events@[i]).remote is Some ==> exists|j: int|
                    0 <= j < idx.len() && idx[j] == i,
        decreases events@.len() - k,
    {
        let e = events[k];
        let ghost old_idx = idx;
        let net = match e.remote {
            Some(w) => {
                proof {
                    idx = idx.push(k as int);
                }
                kinds.push(w);
                net_for(local, w)
            },
            None => None,
        };
        let reply = match e.kind {
            BatchEventKind::AddLink => net.is_some(),
            _ => false,
        };
        nets.push(net);
        reply_link_id.push(reply);
        proof {
            assert forall|i: int|
                0 <= i < k + 1 && (#[trigger] events@[i]).remote is Some implies exists|j: int|
                    0 <= j < idx.len() && idx[j] == i by {
                if i == k {
                    assert(idx[idx.len() - 1] == i);
                } else {
                    assert(events@[i].remote is Some);
                    let j = choose|j: int| 0 <= j < old_idx.len() && old_idx[j] == i;
                    assert(idx[j] == old_idx[j]);
                }
            }
        }
        k = k + 1;
    }
    let (routers_trees, peers_trees) = trees_to_compute(local, &kinds);
    proof {
        let target_r = Some(NetKind::Routers);
        let target_p = Some(NetKind::Peers);
        assert((exists|j: int| 0 <= j < kinds@.len() && spec_net_for(local, #[trigger] kinds@[j]) == target_r)
            <==> (exists|i: int| 0 <= i < events@.len() && event_net(local, #[trigger] events@[i]) == target_r)) by {
            if exists|j: int| 0 <= j < kinds@.len() && spec_net_for(local, #[trigger] kinds@[j]) == target_r {
                let j = choose|j: int| 0 <= j < kinds@.len() && spec_net_for(local, #[trigger] kinds@[j]) == target_r;
                assert(event_net(local, events@[idx[j]]) == target_r);
            }
            if exists|i: int| 0 <= i < events@.len() && event_net(local, #[trigger] events@[i]) == target_r {
                let i = choose|i: int| 0 <= i < events@.len() && event_net(local, #[trigger] events@[i]) == target_r;
                let j = choose|j: int| 0 <= j < idx.len() && idx[j] == i;
                assert(spec_net_for(local, kinds@[j]) == target_r);
            }
        }
        assert((exists|j: int| 0 <= j < kinds@.len() && spec_net_for(local, #[trigger] kinds@[j]) == target_p)
            <==> (exists|i: int| 0 <= i < events@.len() && event_net(local, #[trigger] events@[i]) == target_p)) by {
            if exists|j: int| 0 <= j < kinds@.len() && spec_net_for(local, #[trigger] kinds@[j]) == target_p {
                let j = choose|j: int| 0 <= j < kinds@.len() && spec_net_for(local, #[trigger] kinds@[j]) == target_p;
                assert(event_net(local, events@[idx[j]]) == target_p);
            }
            if exists|i: int| 0 <= i < events@.len() && event_net(local, #[trigger] events@[i]) == target_p {
                let i = choose|i: int| 0 <= i < events@.len() && event_net(local, #[trigger] events@[i]) == target_p;
                let j = choose|j: int| 0 <= j < idx.len() && idx[j] == i;
                assert(spec_net_for(local, kinds@[j]) == target_p);
            }
        }
    }
    BatchPlan { nets, reply_link_id, routers_trees, peers_trees }
}

/// Whether a node discovered through link states is connected to: only when
/// this node autoconnects (a peer with peer autoconnection, a router with
/// router gossip autoconnection), to a peer or a router when this node is a
/// peer, to a router when it is a router, and only if its locators are known.
pub fn should_connect(
    local: WhatAmI,
    peers_autoconnect: bool,
    routers_autoconnect_gossip: bool,
    node: Option<WhatAmI>,
    has_locators: bool,
) -> (b: bool)
    ensures
        b == (((peers_autoconnect && local == WhatAmI::Peer) || (routers_autoconnect_gossip && local
            == WhatAmI::Router)) && ((local == WhatAmI::Peer && (node == Some(WhatAmI::Peer) || node
            == Some(WhatAmI::Router))) || (local == WhatAmI::Router && node == Some(WhatAmI::Router)))
            && has_locators),
{
    let is_peer = match local {
        WhatAmI::Peer => true,
        _ => false,
    };
    let is_router = match local {
        WhatAmI::Router => true,
        _ => false,
    };
    let node_router = match node {
        Some(WhatAmI::Router) => true,
        _ => false,
    };
    let node_peer = match node {
        Some(WhatAmI::Peer) => true,
        _ => false,
    };
    ((peers_autoconnect && is_peer) || (routers_autoconnect_gossip && is_router)) && ((is_peer && (
    node_peer || node_router)) || (is_router && node_router)) && has_locators
}

/// New nodes, each to be sent with its identifier.
pub open spec fn news_of(new_idxs: Seq<usize>) -> Seq<(usize, bool)>
    decreases new_idxs.len(),
{
    if new_idxs.len() == 0 {
        Seq::empty()
    } else {
        news_of(new_idxs.drop_last()).push((new_idxs.last(), true))
    }
}

/// Updated nodes other than `link_pid`'s, each to be sent without identifier.
pub open spec fn updates_for(updated: Seq<(usize, PeerId)>, link_pid: PeerId) -> Seq<(usize, bool)>
    decreases updated.len(),
{
    if updated.len() == 0 {
        Seq::empty()
    } else {
        let rest = updates_for(updated.drop_last(), link_pid);
        if updated.last().1 != link_pid { rest.push((updated.last().0, false)) } else { rest }
    }
}

/// The node states to send on one link after a batch of link states from
/// `src` was applied: on another link, the new nodes with their identifiers
/// and the updated ones without, but not the link's own node; back on the
/// source's link, only the new nodes. Nothing is sent when there is nothing.
pub open spec fn spec_states_for_link(
    link_pid: PeerId,
    src: PeerId,
    new_idxs: Seq<usize>,
    updated: Seq<(usize, PeerId)>,
) -> Option<Seq<(usize, bool)>> {
    let news = news_of(new_idxs);
    if link_pid != src {
        let upd = updates_for(updated, link_pid);
        if news.len() > 0 || upd.len() > 0 {
            Some(news + upd)
        } else {
            None
        }
    } else if news.len() > 0 {
        Some(news)
    } else {
        None
    }
}

/// The node states to send on a link, as [`spec_states_for_link`] says.
pub fn states_for_link(
    link_pid: PeerId,
    src: PeerId,
    new_idxs: &Vec<usize>,
    updated: &Vec<(usize, PeerId)>,
) -> (r: Option<Vec<(usize, bool)>>)
    ensures
        match spec_states_for_link(link_pid, src, new_idxs@, updated@) {
            Some(s) => r matches Some(v) && v@ == s,
            None => r is None,
        },
{
    let mut out: Vec<(usize, bool)> = Vec::new();
    let mut i: usize = 0;
    while i < new_idxs.len()
        invariant
            i <= new_idxs@.len(),
            out@ == news_of(new_idxs@.take(i as int)),
        decreases new_idxs@.len() - i,
    {
        assert(new_idxs@.take(i + 1).drop_last() =~= new_idxs@.take(i as int));
        out.push((new_idxs[i], true));
        i = i + 1;
    }
    assert(new_idxs@.take(new_idxs@.len() as int) =~= new_idxs@);
    let news_len = out.len();
    if link_pid != src {
        let ghost news = out@;
        let mut j: usize = 0;
        while j < updated.len()
            invariant
                j <= updated@.len(),
                news == news_of(new_idxs@),
                out@ == news + updates_for(updated@.take(j as int), link_pid),
            decreases updated@.len() - j,
        {
            assert(updated@.take(j + 1).drop_last() =~= updated@.take(j as int));
            if updated[j].1 != link_pid {
                out.push((updated[j].0, false));
            }
            j = j + 1;
            assert(out@ =~= news + updates_for(updated@.take(j as int), link_pid));
        }
        assert(updated@.take(updated@.len() as int) =~= updated@);
        if out.len() > 0 {
            Some(out)
        } else {
            None
        }
    } else if news_len > 0 {
        Some(out)
    } else {
        None
    }
}

/// The nodes two networks share: each identifier present in both, once.
/// Their order is not stated.
pub fn shared_nodes(first: &Vec<PeerId>, second: &Vec<PeerId>) -> (common: Vec<PeerId>)
    ensures
        forall|p: PeerId| common@.contains(p) <==> first@.contains(p) && second@.contains(p),
        forall|i: int, j: int| 0 <= i < j < common@.len() ==> common@[i] != common@[j],
{
    let mut common: Vec<PeerId> = Vec::new();
    let mut i: usize = 0;
    while i < first.len()
        invariant
            i <= first@.len(),
            forall|p: PeerId| common@.contains(p) <==> first@.take(i as int).contains(p) && second@.contains(p),
            forall|a: int, b: int| 0 <= a < b < common@.len() ==> common@[a] != common@[b],
        decreases first@.len() - i,
    {
        let p = first[i];
        let in_second = contains_pid(second, &p);
        let already = contains_pid(&common, &p);
        let ghost before = common@;
        if in_second && !already {
            common.push(p);
        }
        proof {
            assert forall|q: PeerId| common@.contains(q) <==> first@.take(i + 1).contains(q) && second@.contains(q) by {
                if first@.take(i + 1).contains(q) {
                    let m = choose|m: int| 0 <= m < i + 1 && #[trigger] first@.take(i + 1)[m] == q;
                    if m < i {
                        assert(first@.take(i as int)[m] == q);
                    }
                }
                if first@.take(i as int).contains(q) {
                    let m = choose|m: int| 0 <= m < i && #[trigger] first@.take(i as int)[m] == q;
                    assert(first@.take(i + 1)[m] == q);
                }
                if common@.contains(q) && q != p {
                    let m = choose|m: int| 0 <= m < common@.len() && common@[m] == q;
                    assert(before[m] == q);
                }
                if before.contains(q) {
                    let m = choose|m: int| 0 <= m < before.len() && before[m] == q;
                    assert(common@[m] == q);
                }
                if q == p {
                    assert(first@.take(i + 1)[i as int] == p);
                    if in_second && !already {
                        assert(common@[common@.len() - 1] == p);
                    }
                }
            }
        }
        i = i + 1;
    }
    assert(first@.take(first@.len() as int) =~= first@);
    common
}

fn contains_pid(v: &Vec<PeerId>, p: &PeerId) -> (b: bool)
    ensures
        b == v@.contains(*p),
{
    let mut i: usize = 0;
    while i < v.len()
        invariant
            i <= v@.len(),
            forall|k: int| 0 <= k < i ==> v@[k] != *p,
        decreases v@.len() - i,
    {
        if v[i] == *p {
            assert(v@[i as int] == *p);
            return true;
        }
        i = i + 1;
    }
    false
}


/// The indexes of the present nodes named in `pids`, in order; names of no
/// present node are dropped.
pub open spec fn indexes_of(nodes: Seq<Option<Node>>, pids: Seq<PeerId>) -> Seq<ZInt>
    decreases pids.len(),
{
    if pids.len() == 0 {
        Seq::empty()
    } else {
        let rest = indexes_of(nodes, pids.drop_last());
        match find_node(nodes, pids.last(), 0) {
            Some(i) => rest.push(i as ZInt),
            None => rest,
        }
    }
}

/// The neighbours named in `links` that are in the graph and name the node
/// at `idx` back: each gets an edge to it, in the order of `links`.
pub open spec fn spec_connect(nodes: Seq<Option<Node>>, idx: int, links: Seq<PeerId>) -> Seq<usize>
    decreases links.len(),
{
    if links.len() == 0 {
        Seq::empty()
    } else {
        let rest = spec_connect(nodes, idx, links.drop_last());
        match find_node(nodes, links.last(), 0) {
            Some(j) => if nodes[j]->Some_0.links@.contains(nodes[idx]->Some_0.pid) {
                rest.push(j as usize)
            } else {
                rest
            },
            None => rest,
        }
    }
}

/// The neighbours named in `links` that are not in the graph yet, in order:
/// each joins it as a node known only by its identifier, with sequence
/// number 0.
pub open spec fn spec_introduce(nodes: Seq<Option<Node>>, links: Seq<PeerId>) -> Seq<PeerId>
    decreases links.len(),
{
    if links.len() == 0 {
        Seq::empty()
    } else {
        let rest = spec_introduce(nodes, links.drop_last());
        if find_node(nodes, links.last(), 0) is None {
            rest.push(links.last())
        } else {
            rest
        }
    }
}

/// The current neighbours, in order, whose identifier `links` no longer
/// names: their edge goes.
pub open spec fn spec_disconnect(nodes: Seq<Option<Node>>, links: Seq<PeerId>, neighbours: Seq<usize>) -> Seq<usize>
    decreases neighbours.len(),
{
    if neighbours.len() == 0 {
        Seq::empty()
    } else {
        let rest = spec_disconnect(nodes, links, neighbours.drop_last());
        let n = neighbours.last() as int;
        if 0 <= n < nodes.len() && nodes[n] is Some && !links.contains(nodes[n]->Some_0.pid) {
            rest.push(neighbours.last())
        } else {
            rest
        }
    }
}

/// What a node's new list of neighbours does to the graph's edges.
#[derive(Debug, Clone, PartialEq, Eq)]
pub struct EdgePlan {
    /// The nodes to join to it by an edge.
    pub connect: Vec<usize>,
    /// The identifiers to add as new nodes, with sequence number 0.
    pub introduce: Vec<PeerId>,
    /// The current neighbours whose edge is taken away.
    pub disconnect: Vec<usize>,
}

/// What the node at `idx`, now linked to `links`, does to the edges of the
/// graph, whose current neighbours of `idx` are `neighbours`: an edge to each
/// named node that names it back, a new node for each name not in the graph,
/// and no more edge to a neighbour that `links` does not name.
pub fn edge_plan(nodes: &Vec<Option<Node>>, idx: usize, links: &Vec<PeerId>, neighbours: &Vec<usize>) -> (p: EdgePlan)
    requires
        idx < nodes@.len(),
        nodes@[idx as int] is Some,
    ensures
        p.connect@ == spec_connect(nodes@, idx as int, links@),
        p.introduce@ == spec_introduce(nodes@, links@),
        p.disconnect@ == spec_disconnect(nodes@, links@, neighbours@),
{
    let me = match &nodes[idx] {
        Some(n) => n.pid,
        None => {
            proof {
                assert(false);
            }
            PeerId { id: 0 }
        },
    };
    let mut connect: Vec<usize> = Vec::new();
    let mut introduce: Vec<PeerId> = Vec::new();
    let mut k: usize = 0;
    while k < links.len()
        invariant
            k <= links@.len(),
            idx < nodes@.len(),
            nodes@[idx as int] is Some,
            me == nodes@[idx as int]->Some_0.pid,
            connect@ == spec_connect(nodes@, idx as int, links@.take(k as int)),
            introduce@ == spec_introduce(nodes@, links@.take(k as int)),
        decreases links@.len() - k,
    {
        assert(links@.take(k + 1).drop_last() =~= links@.take(k as int));
        assert(links@.take(k + 1).last() == links@[k as int]);
        match get_idx(nodes, &links[k]) {
            Some(j) => {
                proof {
                    lemma_find_node(nodes@, links@[k as int], 0);
                }
                match &nodes[j] {
                    Some(n) => {
                        if contains_pid(&n.links, &me) {
                            connect.push(j);
                        }
                    },
                    None => {},
                }
            },
            None => {
                introduce.push(links[k]);
            },
        }
        k = k + 1;
    }
    assert(links@.take(links@.len() as int) =~= links@);
    let mut disconnect: Vec<usize> = Vec::new();
    let mut m: usize = 0;
    while m < neighbours.len()
        invariant
            m <= neighbours@.len(),
            disconnect@ == spec_disconnect(nodes@, links@, neighbours@.take(m as int)),
        decreases neighbours@.len() - m,
    {
        assert(neighbours@.take(m + 1).drop_last() =~= neighbours@.take(m as int));
        assert(neighbours@.take(m + 1).last() == neighbours@[m as int]);
        let n = neighbours[m];
        if n < nodes.len() {
            match &nodes[n] {
                Some(node) => {
                    if !contains_pid(links, &node.pid) {
                        disconnect.push(n);
                    }
                },
                None => {},
            }
        }
        m = m + 1;
    }
    assert(neighbours@.take(neighbours@.len() as int) =~= neighbours@);
    EdgePlan { connect, introduce, disconnect }
}

/// A position found for an identifier holds a node with that identifier.
proof fn lemma_find_node_pid(nodes: Seq<Option<Node>>, pid: PeerId, from: int)
    ensures
        find_node(nodes, pid, from) matches Some(i) ==> 0 <= i < nodes.len() && nodes[i] is Some && nodes[i]->Some_0.pid == pid,
    decreases nodes.len() - from,
{
    if 0 <= from < nodes.len() && !(nodes[from] is Some && nodes[from]->Some_0.pid == pid) {
        lemma_find_node_pid(nodes, pid, from + 1);
    }
}

/// Each index among `indexes_of` is that of a present node named in `pids`.
proof fn lemma_indexes_named(nodes: Seq<Option<Node>>, pids: Seq<PeerId>)
    requires
        nodes.len() <= u64::MAX,
    ensures
        forall|k: int| 0 <= k < indexes_of(nodes, pids).len() ==> {
            let x = #[trigger] indexes_of(nodes, pids)[k] as int;
            &&& 0 <= x < nodes.len()
            &&& nodes[x] is Some
            &&& pids.contains(nodes[x]->Some_0.pid)
        },
    decreases pids.len(),
{
    if pids.len() > 0 {
        let rest = pids.drop_last();
        lemma_indexes_named(nodes, rest);
        lemma_find_node_pid(nodes, pids.last(), 0);
        let r = indexes_of(nodes, rest);
        assert forall|k: int| 0 <= k < indexes_of(nodes, pids).len() implies {
            let x = #[trigger] indexes_of(nodes, pids)[k] as int;
            &&& 0 <= x < nodes.len()
            &&& nodes[x] is Some
            &&& pids.contains(nodes[x]->Some_0.pid)
        } by {
            if k < r.len() {
                let x = r[k] as int;
                assert(indexes_of(nodes, pids)[k] == r[k]);
                let j = choose|j: int| 0 <= j < rest.len() && rest[j] == nodes[x]->Some_0.pid;
                assert(pids[j] == rest[j]);
            } else {
                let i = find_node(nodes, pids.last(), 0)->0;
                assert(indexes_of(nodes, pids) == r.push(i as ZInt));
                assert(indexes_of(nodes, pids)[k] == i as ZInt);
                assert(pids[pids.len() - 1] == pids.last());
            }
        }
    }
}

/// Distinct identifiers give distinct indexes.
proof fn lemma_indexes_distinct(nodes: Seq<Option<Node>>, pids: Seq<PeerId>)
    requires
        nodes.len() <= u64::MAX,
    ensures
        pids.no_duplicates() ==> indexes_of(nodes, pids).no_duplicates(),
    decreases pids.len(),
{
    if pids.len() > 0 && pids.no_duplicates() {
        let rest = pids.drop_last();
        assert(rest.no_duplicates()) by {
            assert forall|a: int, b: int| 0 <= a < rest.len() && 0 <= b < rest.len() && a != b implies rest[a] != rest[b] by {
                assert(rest[a] == pids[a] && rest[b] == pids[b]);
            }
        }
        lemma_indexes_distinct(nodes, rest);
        lemma_indexes_named(nodes, rest);
        lemma_find_node_pid(nodes, pids.last(), 0);
        let r = indexes_of(nodes, rest);
        match find_node(nodes, pids.last(), 0) {
            Some(i) => {
                assert forall|k: int| 0 <= k < r.len() implies r[k] != i as ZInt by {
                    let x = r[k] as int;
                    if r[k] == i as ZInt {
                        assert(x == i);
                        let j = choose|j: int| 0 <= j < rest.len() && rest[j] == nodes[x]->Some_0.pid;
                        assert(pids[j] == rest[j]);
                        assert(pids[pids.len() - 1] == pids.last());
                    }
                }
            },
            None => {},
        }
    }
}

/// The link state that describes the node at `idx`: its index, sequence
/// number and kind, its identifier only when `details` is asked, the given
/// locators, and its neighbours by index.
pub fn make_link_state(nodes: &Vec<Option<Node>>, idx: usize, details: bool, locators: Option<Vec<String>>) -> (ls:
    LinkState)
    requires
        idx < nodes@.len(),
        nodes@[idx as int] is Some,
    ensures
        ({
            let node = nodes@[idx as int]->Some_0;
            &&& ls.psid == idx as ZInt
            &&& ls.sn == node.sn
            &&& ls.pid == (if details { Some(node.pid) } else { None::<PeerId> })
            &&& ls.whatami == node.whatami
            &&& ls.locators == locators
            &&& ls.links@ == indexes_of(nodes@, node.links@)
            &&& node.links@.no_duplicates() ==> ls.links@.no_duplicates()
        }),
{
    let count = nodes.len();
    proof {
        assert(nodes@.len() == count);
        lemma_indexes_distinct(nodes@, nodes@[idx as int]->Some_0.links@);
    }
    match &nodes[idx] {
        Some(node) => {
            let mut links: Vec<ZInt> = Vec::new();
            let mut k: usize = 0;
            while k < node.links.len()
                invariant
                    k <= node.links@.len(),
                    links@ == indexes_of(nodes@, node.links@.take(k as int)),
                decreases node.links@.len() - k,
            {
                assert(node.links@.take(k + 1).drop_last() =~= node.links@.take(k as int));
                match get_idx(nodes, &node.links[k]) {
                    Some(i) => links.push(i as ZInt),
                    None => {},
                }
                k = k + 1;
            }
            assert(node.links@.take(node.links@.len() as int) =~= node.links@);
            LinkState {
                psid: idx as ZInt,
                sn: node.sn,
                pid: if details {
                    Some(node.pid)
                } else {
                    None
                },
                whatami: node.whatami,
                locators,
                links,
            }
        },
        None => {
            proof {
                assert(false);
            }
            LinkState { psid: 0, sn: 0, pid: None, whatami: None, locators: None, links: Vec::new() }
        },
    }
}

impl Node {
    /// Record a new neighbour, as a new link does: the neighbour joins the
    /// node's links (once), and the node's sequence number advances.
    pub fn link_to(&mut self, pid: PeerId)
        requires
            old(self).sn < ZInt::MAX,
        ensures
            final(self).links@.to_set() == old(self).links@.to_set().insert(pid),
            old(self).links@.no_duplicates() ==> final(self).links@.no_duplicates(),
            final(self).sn == old(self).sn + 1,
            final(self).pid == old(self).pid,
            final(self).whatami == old(self).whatami,
            final(self).locators == old(self).locators,
    {
        let mut present = false;
        let mut i: usize = 0;
        while i < self.links.len()
            invariant
                i <= self.links@.len(),
                present == exists|k: int| 0 <= k < i && self.links@[k] == pid,
            decreases self.links@.len() - i,
        {
            if self.links[i] == pid {
                present = true;
            }
            i = i + 1;
        }
        let ghost before = self.links@;
        if !present {
            self.links.push(pid);
            assert(self.links@.to_set() =~= before.to_set().insert(pid)) by {
                assert forall|q: PeerId| self.links@.to_set().contains(q) <==> before.to_set().insert(pid).contains(q) by {
                    if before.contains(q) {
                        let k = choose|k: int| 0 <= k < before.len() && before[k] == q;
                        assert(self.links@[k] == q);
                    }
                    if self.links@.contains(q) && q != pid {
                        let k = choose|k: int| 0 <= k < self.links@.len() && self.links@[k] == q;
                        assert(before[k] == q);
                    }
                    if q == pid {
                        assert(self.links@[self.links@.len() - 1] == pid);
                    }
                }
            }
        } else {
            assert(before.to_set() =~= before.to_set().insert(pid)) by {
                let k = choose|k: int| 0 <= k < before.len() && before[k] == pid;
                assert(before.contains(pid));
            }
        }
        self.sn = self.sn + 1;
    }

    /// Forget a neighbour, as a removed link does: the neighbour leaves the
    /// node's links, and the node's sequence number advances.
    pub fn unlink(&mut self, pid: &PeerId)
        requires
            old(self).sn < ZInt::MAX,
        ensures
            final(self).links@ == old(self).links@.filter(|l: PeerId| l != *pid),
            final(self).sn == old(self).sn + 1,
            final(self).pid == old(self).pid,
            final(self).whatami == old(self).whatami,
            final(self).locators == old(self).locators,
    {
        let ghost before = self.links@;
        let mut kept: Vec<PeerId> = Vec::new();
        let mut i: usize = 0;
        while i < self.links.len()
            invariant
                i <= self.links@.len(),
                self.links@ == before,
                kept@ == before.take(i as int).filter(|l: PeerId| l != *pid),
            decreases self.links@.len() - i,
        {
            assert(before.take(i + 1).drop_last() =~= before.take(i as int));
            reveal_with_fuel(Seq::filter, 1);
            if self.links[i] != *pid {
                kept.push(self.links[i]);
            }
            i = i + 1;
        }
        assert(before.take(before.len() as int) =~= before);
        self.links = kept;
        self.sn = self.sn + 1;
    }
}

} // verus!
