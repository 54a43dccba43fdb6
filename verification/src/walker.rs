//! Cursors that walk a collection one item per call, without borrowing it
//! between calls: the collection is handed in again at each step.
use vstd::prelude::*;
use vector_map::VecMap;
use vector_map::set::VecSet;
use crate::network::PeerId;

verus! {

/// One call of `walk_next` at position `pos` over `items`: the position after
/// it, and the item handed out, if any.
pub open spec fn walk_step<T>(pos: nat, items: Seq<T>) -> (nat, Option<T>) {
    if pos < items.len() {
        ((pos + 1) as nat, Some(items[pos as int]))
    } else {
        (pos, None)
    }
}

/// `n` calls of `walk_next` from position `pos` over `items`: the position
/// after them, and what each handed out, in order.
pub open spec fn walk_run<T>(pos: nat, items: Seq<T>, n: nat) -> (nat, Seq<Option<T>>)
    decreases n,
{
    if n == 0 {
        (pos, Seq::empty())
    } else {
        let before = walk_run(pos, items, (n - 1) as nat);
        let step = walk_step(before.0, items);
        (step.0, before.1.push(step.1))
    }
}

/// A walker started at the beginning hands out the items in order, one per
/// call, and `None` at every call after the last item.
pub proof fn lemma_walk_run<T>(items: Seq<T>, n: nat)
    ensures
        walk_run(0, items, n).0 == (if n < items.len() { n } else { items.len() }),
        walk_run(0, items, n).1.len() == n,
        forall|i: int|
            0 <= i < n ==> #[trigger] walk_run(0, items, n).1[i] == (if i < items.len() {
                Some(items[i])
            } else {
                None::<T>
            }),
    decreases n,
{
    if n > 0 {
        lemma_walk_run(items, (n - 1) as nat);
        let before = walk_run(0, items, (n - 1) as nat);
        assert forall|i: int|
            0 <= i < n implies #[trigger] walk_run(0, items, n).1[i] == (if i < items.len() {
                Some(items[i])
            } else {
                None::<T>
            }) by {
            if i < n - 1 {
                assert(walk_run(0, items, n).1[i] == before.1[i]);
            }
        }
    }
}

/// A cursor over a `Vec`: each call of `walk_next` hands out the next item.
pub struct VecWalker<T> {
    idx: usize,
    phantom: core::marker::PhantomData<T>,
}

impl<T> VecWalker<T> {
    /// How many items this walker has handed out so far.
    pub closed spec fn position(&self) -> nat {
        self.idx as nat
    }

    /// A walker at the start of any vector.
    pub fn new() -> (w: Self)
        ensures
            w.position() == 0,
    {
        VecWalker { idx: 0, phantom: core::marker::PhantomData }
    }

    /// The item at the walker's position, and the walker one step further;
    /// past the end, `None` and the walker stays where it is.
    pub fn walk_next<'a>(&mut self, context: &'a Vec<T>) -> (r: Option<&'a T>)
        ensures
            old(self).position() < context.len() ==> {
                &&& r matches Some(x) && *x == context@[old(self).position() as int]
                &&& final(self).position() == old(self).position() + 1
            },
            old(self).position() >= context.len() ==> {
                &&& r is None
                &&& final(self).position() == old(self).position()
            },
            final(self).position() == walk_step(old(self).position(), context@).0,
            (match r {
                Some(x) => Some(*x),
                None => None::<T>,
            }) == walk_step(old(self).position(), context@).1,
    {
        if self.idx >= context.len() {
            None
        } else {
            let result = Some(&context[self.idx]);
            self.idx = self.idx + 1;
            result
        }
    }
}

impl<T> Default for VecWalker<T> {
    fn default() -> (w: Self)
        ensures
            w.position() == 0,
    {
        Self::new()
    }
}

#[verifier::external_type_specification]
#[verifier::external_body]
#[verifier::reject_recursive_types(K)]
#[verifier::reject_recursive_types(V)]
pub struct ExVectorMap<K, V>(vector_map::VecMap<K, V>);

/// What a `VecMap` from names to node slots holds, in its storage order.
pub uninterp spec fn named_slots(m: VecMap<String, usize>) -> Seq<(Seq<char>, usize)>;

/// `VecMap::new`: a map that holds nothing.
#[verifier::external_body]
pub(crate) fn named_slots_new() -> (m: VecMap<String, usize>)
    ensures
        named_slots(m) == Seq::<(Seq<char>, usize)>::empty(),
{
    VecMap::new()
}

/// The first storage position, from `from` on, whose name is `key`.
pub open spec fn first_slot(entries: Seq<(Seq<char>, usize)>, key: Seq<char>, from: int) -> Option<
    int,
>
    decreases entries.len() - from,
{
    if from < 0 || from >= entries.len() {
        None
    } else if entries[from].0 == key {
        Some(from)
    } else {
        first_slot(entries, key, from + 1)
    }
}

/// The first storage position whose name is `key`, if there is one.
pub open spec fn slot_position(entries: Seq<(Seq<char>, usize)>, key: Seq<char>) -> Option<int> {
    first_slot(entries, key, 0)
}

/// The value stored under the first entry named `key`, if there is one.
pub open spec fn slot_value(entries: Seq<(Seq<char>, usize)>, key: Seq<char>) -> Option<usize> {
    match slot_position(entries, key) {
        Some(p) => Some(entries[p].1),
        None => None,
    }
}

/// A position found by `first_slot` holds the key, and no earlier one does.
pub proof fn lemma_first_slot(entries: Seq<(Seq<char>, usize)>, key: Seq<char>, from: int)
    requires
        0 <= from,
    ensures
        first_slot(entries, key, from) matches Some(p) ==> from <= p < entries.len()
            && entries[p].0 == key,
        first_slot(entries, key, from) is None ==> forall|q: int|
            from <= q < entries.len() ==> entries[q].0 != key,
    decreases entries.len() - from,
{
    if from < entries.len() && entries[from].0 != key {
        lemma_first_slot(entries, key, from + 1);
    }
}

/// Appending an entry changes what a name finds only for a name that was
/// absent, and only to the appended entry.
pub proof fn lemma_first_slot_push(
    entries: Seq<(Seq<char>, usize)>,
    entry: (Seq<char>, usize),
    key: Seq<char>,
    from: int,
)
    requires
        0 <= from <= entries.len(),
    ensures
        first_slot(entries.push(entry), key, from) == (match first_slot(entries, key, from) {
            Some(p) => Some(p),
            None => if entry.0 == key {
                Some(entries.len() as int)
            } else {
                None
            },
        }),
    decreases entries.len() - from,
{
    let pushed = entries.push(entry);
    if from < entries.len() {
        assert(pushed[from] == entries[from]);
        if entries[from].0 != key {
            lemma_first_slot_push(entries, entry, key, from + 1);
        }
    } else {
        assert(pushed[from] == entry);
        assert(first_slot(pushed, key, from + 1) is None);
    }
}

/// No two entries share a name.
pub open spec fn keys_unique(entries: Seq<(Seq<char>, usize)>) -> bool {
    forall|a: int, b: int| 0 <= a < b < entries.len() ==> entries[a].0 != entries[b].0
}

/// The entries once the one at `p` is taken out and the last moved in its
/// place, as `VecMap::remove` leaves them.
pub open spec fn swap_removed(entries: Seq<(Seq<char>, usize)>, p: int) -> Seq<(Seq<char>, usize)> {
    entries.update(p, entries.last()).drop_last()
}

/// With unique names, a name is found where it is.
pub proof fn lemma_unique_slot(entries: Seq<(Seq<char>, usize)>, k: int, from: int)
    requires
        keys_unique(entries),
        0 <= from <= k < entries.len(),
    ensures
        first_slot(entries, entries[k].0, from) == Some(k),
    decreases k - from,
{
    if from < k {
        assert(entries[from].0 != entries[k].0);
        lemma_unique_slot(entries, k, from + 1);
    }
}

/// A name held by no entry is not found.
pub proof fn lemma_absent_slot(entries: Seq<(Seq<char>, usize)>, key: Seq<char>, from: int)
    requires
        0 <= from,
        forall|j: int| from <= j < entries.len() ==> entries[j].0 != key,
    ensures
        first_slot(entries, key, from) is None,
    decreases entries.len() - from,
{
    if from < entries.len() {
        lemma_absent_slot(entries, key, from + 1);
    }
}

/// Taking an entry out by swapping keeps the names unique and every other
/// name's value, and loses the name taken out.
pub proof fn lemma_swap_removed(entries: Seq<(Seq<char>, usize)>, p: int)
    requires
        keys_unique(entries),
        0 <= p < entries.len(),
    ensures
        keys_unique(swap_removed(entries, p)),
        swap_removed(entries, p).len() == entries.len() - 1,
        slot_value(swap_removed(entries, p), entries[p].0) is None,
        forall|key: Seq<char>|
            key != entries[p].0 ==> #[trigger] slot_value(swap_removed(entries, p), key)
                == slot_value(entries, key),
        forall|k: int|
            0 <= k < swap_removed(entries, p).len() ==> (k != p ==> #[trigger] swap_removed(
                entries,
                p,
            )[k] == entries[k]) && (k == p ==> swap_removed(entries, p)[k] == entries.last()),
{
    let n = entries.len();
    let new = swap_removed(entries, p);
    // Where each old entry but the one at `p` now stands.
    assert forall|a: int, b: int| 0 <= a < b < new.len() implies new[a].0 != new[b].0 by {
        let oa = if a == p { n - 1 } else { a };
        let ob = if b == p { n - 1 } else { b };
        assert(new[a] == entries[oa]);
        assert(new[b] == entries[ob]);
    }
    assert forall|j: int| 0 <= j < new.len() implies new[j].0 != entries[p].0 by {
        let oj = if j == p { n - 1 } else { j };
        assert(new[j] == entries[oj]);
    }
    lemma_absent_slot(new, entries[p].0, 0);
    assert forall|key: Seq<char>| key != entries[p].0 implies #[trigger] slot_value(new, key)
        == slot_value(entries, key) by {
        if exists|j: int| 0 <= j < n && entries[j].0 == key {
            let j = choose|j: int| 0 <= j < n && entries[j].0 == key;
            lemma_unique_slot(entries, j, 0);
            let nj = if j == n - 1 { p } else { j };
            assert(new[nj] == entries[j]);
            lemma_unique_slot(new, nj, 0);
        } else {
            lemma_absent_slot(entries, key, 0);
            assert forall|j: int| 0 <= j < new.len() implies new[j].0 != key by {
                let oj = if j == p { n - 1 } else { j };
                assert(new[j] == entries[oj]);
            }
            lemma_absent_slot(new, key, 0);
        }
    }
}

/// `VecMap::is_empty`: whether the map holds nothing.
#[verifier::external_body]
pub(crate) fn named_slots_is_empty(m: &VecMap<String, usize>) -> (b: bool)
    ensures
        b == (named_slots(*m).len() == 0),
{
    m.is_empty()
}

/// `VecMap::get`: the slot stored under the first entry named `key`, found
/// by comparing names in storage order.
#[verifier::external_body]
pub(crate) fn named_slots_get(m: &VecMap<String, usize>, key: &str) -> (r: Option<usize>)
    ensures
        r == slot_value(named_slots(*m), key@),
{
    m.get(&key).copied()
}

/// `VecMap::insert`: the value of an entry already named `key` is replaced,
/// otherwise the entry is appended.
#[verifier::external_body]
pub(crate) fn named_slots_insert(m: &mut VecMap<String, usize>, key: String, value: usize)
    ensures
        named_slots(*final(m)) == (match slot_position(named_slots(*old(m)), key@) {
            Some(p) => named_slots(*old(m)).update(p, (key@, value)),
            None => named_slots(*old(m)).push((key@, value)),
        }),
{
    m.insert(key, value);
}

/// `VecMap::remove`: the first entry named `key` is taken out, and the last
/// entry moves into its place.
#[verifier::external_body]
pub(crate) fn named_slots_remove(m: &mut VecMap<String, usize>, key: &str) -> (r: Option<usize>)
    ensures
        (match slot_position(named_slots(*old(m)), key@) {
            Some(p) => {
                let old_entries = named_slots(*old(m));
                &&& r == Some(old_entries[p].1)
                &&& named_slots(*final(m)) == old_entries.update(p, old_entries.last()).drop_last()
            },
            None => r is None && named_slots(*final(m)) == named_slots(*old(m)),
        }),
{
    m.remove(&key)
}

/// `VecMap::iter` followed by `nth`: the entry at a storage position.
#[verifier::external_body]
fn named_slots_nth<'a>(m: &'a VecMap<String, usize>, index: usize) -> (r: Option<
    (&'a String, &'a usize),
>)
    ensures
        r is Some <==> index < named_slots(*m).len(),
        r matches Some(e) ==> e.0@ == named_slots(*m)[index as int].0,
        r matches Some(e) ==> *e.1 == named_slots(*m)[index as int].1,
{
    m.iter().nth(index)
}

/// A cursor over a `VecMap`: each call of `walk_next` hands out the next
/// entry in storage order.
pub struct VecMapWalker<K, V> {
    index: usize,
    _marker: core::marker::PhantomData<(K, V)>,
}

impl<K, V> VecMapWalker<K, V> {
    /// How many steps this walker has taken so far.
    pub closed spec fn position(&self) -> nat {
        self.index as nat
    }

    /// A walker at the start of any map.
    pub fn new() -> (w: Self)
        ensures
            w.position() == 0,
    {
        VecMapWalker { index: 0, _marker: core::marker::PhantomData }
    }
}

impl VecMapWalker<String, usize> {
    /// The entry at the walker's position, if the map has one there; the
    /// walker steps on either way.
    pub fn walk_next<'a>(&mut self, context: &'a VecMap<String, usize>) -> (r: Option<
        (&'a String, &'a usize),
    >)
        requires
            old(self).position() < usize::MAX,
        ensures
            final(self).position() == old(self).position() + 1,
            old(self).position() < named_slots(*context).len() ==> (r matches Some((k, v))
                && k@ == named_slots(*context)[old(self).position() as int].0 && *v == named_slots(
                *context,
            )[old(self).position() as int].1),
            old(self).position() >= named_slots(*context).len() ==> r is None,
    {
        let res = named_slots_nth(context, self.index);
        self.index = self.index + 1;
        res
    }
}

impl<K, V> Default for VecMapWalker<K, V> {
    fn default() -> (w: Self)
        ensures
            w.position() == 0,
    {
        Self::new()
    }
}

#[verifier::external_type_specification]
#[verifier::external_body]
#[verifier::reject_recursive_types(T)]
pub struct ExVecSet<T>(vector_map::set::VecSet<T>);

/// What a `VecSet` of node identifiers holds, in its storage order.
pub uninterp spec fn peer_set(s: VecSet<PeerId>) -> Seq<PeerId>;

/// `VecSet::iter` followed by `nth`: the identifier at a storage position.
#[verifier::external_body]
fn peer_set_nth<'a>(s: &'a VecSet<PeerId>, index: usize) -> (r: Option<&'a PeerId>)
    ensures
        r is Some <==> index < peer_set(*s).len(),
        r matches Some(p) ==> *p == peer_set(*s)[index as int],
{
    s.iter().nth(index)
}

impl VecMapWalker<PeerId, ()> {
    /// The identifier at the walker's position in a set, if the set has one
    /// there; the walker steps on either way.
    pub fn walk_next_in_set<'a>(&mut self, context: &'a VecSet<PeerId>) -> (r: Option<&'a PeerId>)
        requires
            old(self).position() < usize::MAX,
        ensures
            final(self).position() == old(self).position() + 1,
            old(self).position() < peer_set(*context).len() ==> (r matches Some(p) && *p == peer_set(
                *context,
            )[old(self).position() as int]),
            old(self).position() >= peer_set(*context).len() ==> r is None,
    {
        let res = peer_set_nth(context, self.index);
        self.index = self.index + 1;
        res
    }
}

/// `VecMap::iter_mut` followed by `nth`: the entry at a storage position,
/// its value open to change in place; nothing else of the map changes.
#[verifier::external_body]
fn named_slots_nth_mut<'a>(m: &'a mut VecMap<String, usize>, index: usize) -> (r: Option<
    (&'a String, &'a mut usize),
>)
    ensures
        index < named_slots(*old(m)).len() ==> (r matches Some(e) && e.0@ == named_slots(*old(m))[index as int].0
            && *e.1 == named_slots(*old(m))[index as int].1 && named_slots(*final(m)) == named_slots(
            *old(m),
        ).update(index as int, (e.0@, *final(e.1)))),
        index >= named_slots(*old(m)).len() ==> r is None && named_slots(*final(m)) == named_slots(*old(m)),
{
    m.iter_mut().nth(index)
}

impl VecMapWalker<String, usize> {
    /// The entry at the walker's position, its value open to change in
    /// place, if the map has one there; the walker steps on either way.
    pub fn walk_next_mut<'a>(&mut self, context: &'a mut VecMap<String, usize>) -> (r: Option<
        (&'a String, &'a mut usize),
    >)
        requires
            old(self).position() < usize::MAX,
        ensures
            final(self).position() == old(self).position() + 1,
            old(self).position() < named_slots(*old(context)).len() ==> (r matches Some(e) && e.0@
                == named_slots(*old(context))[old(self).position() as int].0 && *e.1 == named_slots(
                *old(context),
            )[old(self).position() as int].1 && named_slots(*final(context)) == named_slots(
                *old(context),
            ).update(old(self).position() as int, (e.0@, *final(e.1)))),
            old(self).position() >= named_slots(*old(context)).len() ==> r is None && named_slots(
                *final(context),
            ) == named_slots(*old(context)),
    {
        let res = named_slots_nth_mut(context, self.index);
        self.index = self.index + 1;
        res
    }
}

} // verus!
