//! The resource tree: key expressions stored as a trie of chunks.
//!
//! A key expression such as `/a/b/c` is cut before each `/` that is not its
//! first character, giving the chunks `/a`, `/b`, `/c`; each node of the tree
//! holds one chunk, and the expression of a node is the concatenation of the
//! chunks on the way down from its root. Nodes live in an arena and are named
//! by their slot in it.
use crate::walker::{
    lemma_first_slot, lemma_first_slot_push, named_slots, named_slots_get,
    named_slots_insert, named_slots_new, slot_position, slot_value, VecMapWalker, keys_unique,
    swap_removed, lemma_swap_removed, lemma_unique_slot, named_slots_remove, named_slots_is_empty,
};
use vector_map::VecMap;
use vstd::prelude::*;
use vstd::string::StrSliceExecFns;
use vstd::string::StringExecFns;

verus! {

/// A handle that can be turned into a weak one, which does not keep the
/// resource alive.
pub trait Weaken {
    type Weak: Strengthen<Strong = Self>;

    fn weaken(&self) -> Self::Weak;
}

/// A weak handle that can be turned back into a strong one while the
/// resource still exists.
pub trait Strengthen {
    type Strong;

    /// `()` if fallible, `std::convert::Infallible` otherwise
    type Err;

    fn strengthen(&self) -> Result<Self::Strong, Self::Err>;
}

/// The first position at or after `j` that holds a `/`, or the length.
pub open spec fn slash_from(s: Seq<char>, j: int) -> int
    decreases s.len() - j,
{
    if j >= s.len() {
        s.len() as int
    } else if s[j] == '/' {
        j
    } else {
        slash_from(s, j + 1)
    }
}

/// Where the first chunk of a non-empty expression ends: before its first
/// `/` that is not its first character, or at its end.
pub open spec fn chunk_end(s: Seq<char>) -> int {
    slash_from(s, 1)
}

/// A chunk: non-empty, with no `/` but possibly its first character.
pub open spec fn is_chunk(c: Seq<char>) -> bool {
    &&& c.len() > 0
    &&& forall|j: int| 1 <= j < c.len() ==> c[j] != '/'
}

/// The last position after the first that holds a `/`, searching down from
/// `j`; 0 if there is none.
pub open spec fn last_slash(e: Seq<char>, j: int) -> int
    decreases j,
{
    if j < 1 {
        0
    } else if e[j] == '/' {
        j
    } else {
        last_slash(e, j - 1)
    }
}

/// Where the last chunk of an expression starts.
pub open spec fn last_cut(e: Seq<char>) -> int {
    last_slash(e, e.len() - 1)
}

/// Whether `a` begins `b`.
pub open spec fn is_prefix(a: Seq<char>, b: Seq<char>) -> bool {
    a.len() <= b.len() && b.subrange(0, a.len() as int) == a
}

/// A position at which an expression may be cut into whole chunks.
pub open spec fn is_cut(e: Seq<char>, b: int) -> bool {
    b == 0 || b == e.len() || (0 < b < e.len() && e[b] == '/')
}

proof fn lemma_slash_from(s: Seq<char>, j: int)
    requires
        0 <= j <= s.len(),
    ensures
        j <= slash_from(s, j) <= s.len(),
        forall|k: int| j <= k < slash_from(s, j) ==> s[k] != '/',
        slash_from(s, j) < s.len() ==> s[slash_from(s, j)] == '/',
    decreases s.len() - j,
{
    if j < s.len() && s[j] != '/' {
        lemma_slash_from(s, j + 1);
    }
}

/// The first chunk of a non-empty expression is a chunk, and what follows it
/// is empty or starts with `/`.
proof fn lemma_chunk_end(s: Seq<char>)
    requires
        s.len() > 0,
    ensures
        1 <= chunk_end(s) <= s.len(),
        is_chunk(s.subrange(0, chunk_end(s))),
        chunk_end(s) < s.len() ==> s[chunk_end(s)] == '/',
{
    lemma_slash_from(s, 1);
    let c = s.subrange(0, chunk_end(s));
    assert forall|j: int| 1 <= j < c.len() implies c[j] != '/' by {
        assert(c[j] == s[j]);
    }
}

proof fn lemma_last_slash(e: Seq<char>, j: int)
    requires
        j < e.len(),
    ensures
        0 <= last_slash(e, j),
        last_slash(e, j) <= j || last_slash(e, j) == 0,
        last_slash(e, j) >= 1 ==> e[last_slash(e, j)] == '/',
        forall|k: int| last_slash(e, j) < k <= j && k >= 1 ==> e[k] != '/',
    decreases j,
{
    if j >= 1 && e[j] != '/' {
        lemma_last_slash(e, j - 1);
    }
}

/// Appending a chunk to an expression puts the last cut where the chunk
/// starts, when the chunk starts with `/` or the expression is empty.
proof fn lemma_last_cut_append(e: Seq<char>, c: Seq<char>)
    requires
        is_chunk(c),
        e.len() == 0 || c[0] == '/',
    ensures
        last_cut(e + c) == e.len(),
{
    let ec = e + c;
    lemma_last_slash(ec, ec.len() - 1);
    let l = last_cut(ec);
    assert forall|k: int| e.len() < k < ec.len() implies ec[k] != '/' by {
        assert(ec[k] == c[k - e.len()]);
    }
    if e.len() >= 1 {
        assert(ec[e.len() as int] == c[0]);
        if l < e.len() {
            assert(ec[e.len() as int] != '/');
        }
    } else {
        if l >= 1 {
            assert(ec[l] == c[l]);
        }
    }
}

/// The end of the first chunk of a non-empty expression.
fn first_chunk_end(s: &str) -> (e: usize)
    requires
        s@.len() > 0,
    ensures
        e == chunk_end(s@),
{
    let n = s.unicode_len();
    let mut j: usize = 1;
    while j < n && s.get_char(j) != '/'
        invariant
            1 <= j <= n,
            n == s@.len(),
            slash_from(s@, j as int) == chunk_end(s@),
        decreases n - j,
    {
        j = j + 1;
    }
    j
}

/// One node of the tree: its parent's slot, its chunk, and its children
/// by chunk.
pub struct ResNode {
    parent: Option<usize>,
    suffix: String,
    childs: VecMap<String, usize>,
}

/// The nodes of resource trees, each with an optional weight.
pub struct ArcTree<Weight> {
    nodes: Vec<ResNode>,
    weights: Vec<Option<Weight>>,
}

impl<Weight> ArcTree<Weight> {
    /// How many slots the arena holds.
    pub closed spec fn len(&self) -> nat {
        self.nodes@.len()
    }

    /// The parent of node `i`; `None` for a root.
    pub closed spec fn parent_of(&self, i: int) -> Option<usize> {
        self.nodes@[i].parent
    }

    /// The chunk node `i` holds.
    pub closed spec fn suffix_of(&self, i: int) -> Seq<char> {
        self.nodes@[i].suffix@
    }

    /// The children of node `i`, by chunk, in storage order.
    pub closed spec fn childs_of(&self, i: int) -> Seq<(Seq<char>, usize)> {
        named_slots(self.nodes@[i].childs)
    }

    /// The weight of node `i`, if it has one.
    pub closed spec fn weight_of(&self, i: int) -> Option<Weight> {
        self.weights@[i]
    }

    /// Two arenas with the same nodes, whatever their weights.
    pub closed spec fn same_nodes(&self, other: &Self) -> bool {
        self.nodes@ == other.nodes@
    }

    /// The key expression of node `i`: the chunks on the way down from its
    /// root, the root's own chunk left out.
    pub open spec fn expr_of(&self, i: int) -> Seq<char>
        decreases i,
    {
        if 0 <= i < self.len() {
            match self.parent_of(i) {
                Some(p) => if p < i {
                    self.expr_of(p as int) + self.suffix_of(i)
                } else {
                    Seq::empty()
                },
                None => Seq::empty(),
            }
        } else {
            Seq::empty()
        }
    }

    /// The root of the tree that holds node `i`.
    pub open spec fn root_of(&self, i: int) -> int
        decreases i,
    {
        if 0 <= i < self.len() {
            match self.parent_of(i) {
                Some(p) => if p < i {
                    self.root_of(p as int)
                } else {
                    i
                },
                None => i,
            }
        } else {
            i
        }
    }

    /// What holds of each node of a well-formed arena.
    pub open spec fn node_wf(&self, i: int) -> bool {
        &&& (self.parent_of(i) matches Some(p) ==> {
            &&& p < i
            &&& is_chunk(self.suffix_of(i))
            &&& (self.suffix_of(i)[0] as int) < 128
            &&& (self.parent_of(p as int) is Some ==> self.suffix_of(i)[0] == '/')
            &&& slot_value(self.childs_of(p as int), self.suffix_of(i)) == Some(i as usize)
        })
        &&& self.childs_of(i).len() < self.len()
        &&& keys_unique(self.childs_of(i))
        &&& forall|k: int|
            #![trigger self.childs_of(i)[k]]
            0 <= k < self.childs_of(i).len() ==> {
                let c = self.childs_of(i)[k].1;
                &&& c < self.len()
                &&& self.parent_of(c as int) == Some(i as usize)
                &&& self.suffix_of(c as int) == self.childs_of(i)[k].0
            }
    }

    /// Well-formedness: parents come before their children, each child holds
    /// a chunk (one that starts with `/` below the first level, and with a
    /// one-byte character at it), and each child is listed under its chunk
    /// in its parent, which lists nothing else.
    pub closed spec fn wf(&self) -> bool {
        &&& self.weights@.len() == self.nodes@.len()
        &&& self.nodes@.len() <= usize::MAX
        &&& forall|i: int| 0 <= i < self.len() ==> #[trigger] self.node_wf(i)
    }

    /// Whether node `n` is in the tree of `prefix` and spells `target`.
    pub open spec fn spells(&self, prefix: int, n: int, target: Seq<char>) -> bool {
        &&& 0 <= n < self.len()
        &&& self.root_of(n) == self.root_of(prefix)
        &&& self.expr_of(n) == target
    }

    /// The node of the tree of `prefix` whose expression is that of `prefix`
    /// followed by `s`, if there is one.
    pub open spec fn lookup(&self, prefix: int, s: Seq<char>) -> Option<usize> {
        let target = self.expr_of(prefix) + s;
        if exists|n: int| self.spells(prefix, n, target) {
            Some((choose|n: int| self.spells(prefix, n, target)) as usize)
        } else {
            None
        }
    }

    /// A node with a parent has a non-empty expression, which ends with its
    /// chunk, cut from its parent's expression at the last cut.
    proof fn lemma_split(&self, x: int)
        requires
            self.wf(),
            0 <= x < self.len(),
            self.parent_of(x) is Some,
        ensures
            ({
                let p = self.parent_of(x)->0 as int;
                let e = self.expr_of(x);
                &&& 0 <= p < x
                &&& e.len() > 0
                &&& last_cut(e) == self.expr_of(p).len()
                &&& self.expr_of(p) == e.subrange(0, last_cut(e))
                &&& self.suffix_of(x) == e.subrange(last_cut(e), e.len() as int)
            }),
    {
        assert(self.node_wf(x));
        let p = self.parent_of(x)->0 as int;
        let e = self.expr_of(x);
        assert(e == self.expr_of(p) + self.suffix_of(x));
        lemma_last_cut_append(self.expr_of(p), self.suffix_of(x));
        assert(self.expr_of(p) =~= e.subrange(0, last_cut(e)));
        assert(self.suffix_of(x) =~= e.subrange(last_cut(e), e.len() as int));
    }

    /// The root of a node has no parent and the empty expression.
    proof fn lemma_root(&self, i: int)
        requires
            self.wf(),
            0 <= i < self.len(),
        ensures
            0 <= self.root_of(i) <= i,
            self.parent_of(self.root_of(i)) is None,
            self.root_of(self.root_of(i)) == self.root_of(i),
            self.expr_of(self.root_of(i)) == Seq::<char>::empty(),
        decreases i,
    {
        assert(self.node_wf(i));
        if let Some(p) = self.parent_of(i) {
            self.lemma_root(p as int);
        }
    }

    /// In one tree, no two nodes spell the same key expression: a node is
    /// identified by its tree and its expression.
    pub proof fn lemma_unique(&self, m: int, n: int)
        requires
            self.wf(),
            0 <= m < self.len(),
            0 <= n < self.len(),
            self.root_of(m) == self.root_of(n),
            self.expr_of(m) == self.expr_of(n),
        ensures
            m == n,
        decreases m + n,
    {
        assert(self.node_wf(m));
        assert(self.node_wf(n));
        match (self.parent_of(m), self.parent_of(n)) {
            (Some(pm), Some(pn)) => {
                self.lemma_split(m);
                self.lemma_split(n);
                assert(self.root_of(m) == self.root_of(pm as int));
                assert(self.root_of(n) == self.root_of(pn as int));
                self.lemma_unique(pm as int, pn as int);
                assert(self.suffix_of(m) == self.suffix_of(n));
                assert(slot_value(self.childs_of(pm as int), self.suffix_of(m)) == Some(m as usize));
                assert(slot_value(self.childs_of(pn as int), self.suffix_of(n)) == Some(n as usize));
            },
            (Some(_), None) => {
                self.lemma_split(m);
            },
            (None, Some(_)) => {
                self.lemma_split(n);
            },
            (None, None) => {},
        }
    }

    /// Cutting the expression of a node at a cut gives the expression of one
    /// of its ancestors.
    proof fn lemma_ancestor_at(&self, m: int, b: int) -> (a: int)
        requires
            self.wf(),
            0 <= m < self.len(),
            0 <= b <= self.expr_of(m).len(),
            is_cut(self.expr_of(m), b),
        ensures
            0 <= a < self.len(),
            self.root_of(a) == self.root_of(m),
            self.expr_of(a) == self.expr_of(m).subrange(0, b),
        decreases m,
    {
        let e = self.expr_of(m);
        if b == e.len() {
            assert(e.subrange(0, b) =~= e);
            m
        } else {
            assert(self.node_wf(m));
            match self.parent_of(m) {
                None => {
                    assert(false);
                    m
                },
                Some(p) => {
                    self.lemma_split(m);
                    let l = last_cut(e);
                    let ep = self.expr_of(p as int);
                    if b > l {
                        let s = self.suffix_of(m);
                        assert(s[b - l] == e[b]);
                        assert(false);
                    }
                    assert(is_cut(ep, b)) by {
                        if 0 < b < ep.len() {
                            assert(ep[b] == e[b]);
                        }
                    }
                    let a = self.lemma_ancestor_at(p as int, b);
                    assert(ep.subrange(0, b) =~= e.subrange(0, b));
                    a
                },
            }
        }
    }

    /// Whatever spells the expression of `prefix` followed by `s` in its tree
    /// is what `lookup` gives.
    pub proof fn lemma_lookup(&self, prefix: int, s: Seq<char>, n: int)
        requires
            self.wf(),
            0 <= prefix < self.len(),
            self.spells(prefix, n, self.expr_of(prefix) + s),
        ensures
            self.lookup(prefix, s) == Some(n as usize),
    {
        let target = self.expr_of(prefix) + s;
        let c = choose|n: int| self.spells(prefix, n, target);
        self.lemma_unique(c, n);
    }

    /// A chunk that a node does not list cannot lead, from that node, to a
    /// node of its tree.
    proof fn lemma_missing_chunk(&self, node: int, rest: Seq<char>)
        requires
            self.wf(),
            0 <= node < self.len(),
            rest.len() > 0,
            rest[0] == '/' || self.parent_of(node) is None,
            slot_value(self.childs_of(node), rest.subrange(0, chunk_end(rest))) is None,
        ensures
            forall|m: int|
                0 <= m < self.len() && self.root_of(m) == self.root_of(node) ==> self.expr_of(m)
                    != self.expr_of(node) + rest,
    {
        lemma_chunk_end(rest);
        let en = self.expr_of(node);
        let e = chunk_end(rest);
        let chunk = rest.subrange(0, e);
        assert(self.node_wf(node));
        if self.parent_of(node) is Some {
            self.lemma_split(node);
        }
        assert forall|m: int|
            0 <= m < self.len() && self.root_of(m) == self.root_of(node) implies self.expr_of(m)
                != en + rest by {
            if self.expr_of(m) == en + rest {
                let big = en + rest;
                let b = en.len() as int;
                assert(is_cut(big, b)) by {
                    if b > 0 {
                        assert(big[b] == rest[0]);
                    }
                }
                let a = self.lemma_ancestor_at(m, b);
                assert(big.subrange(0, b) =~= en);
                self.lemma_unique(a, node);
                let b2 = b + e;
                assert(is_cut(big, b2)) by {
                    if e < rest.len() {
                        assert(big[b2] == rest[e]);
                    }
                }
                let a2 = self.lemma_ancestor_at(m, b2);
                assert(big.subrange(0, b2) =~= en + chunk);
                assert(self.node_wf(a2));
                if self.parent_of(a2) is None {
                    assert(self.expr_of(a2).len() == 0);
                    assert(false);
                }
                self.lemma_split(a2);
                lemma_last_cut_append(en, chunk);
                let p2 = self.parent_of(a2)->0 as int;
                assert((en + chunk).subrange(0, en.len() as int) =~= en);
                assert(self.root_of(a2) == self.root_of(p2));
                self.lemma_unique(p2, node);
                assert((en + chunk).subrange(en.len() as int, (en + chunk).len() as int) =~= chunk);
                assert(false);
            }
        }
    }

    /// The node listed under a chunk has that node as parent and that chunk.
    proof fn lemma_listed_child(&self, node: int, chunk: Seq<char>)
        requires
            self.wf(),
            0 <= node < self.len(),
            slot_value(self.childs_of(node), chunk) is Some,
        ensures
            ({
                let c = slot_value(self.childs_of(node), chunk)->0 as int;
                &&& node < c < self.len()
                &&& self.parent_of(c) == Some(node as usize)
                &&& self.suffix_of(c) == chunk
                &&& self.expr_of(c) == self.expr_of(node) + chunk
                &&& self.root_of(c) == self.root_of(node)
            }),
    {
        lemma_first_slot(self.childs_of(node), chunk, 0);
        let k = slot_position(self.childs_of(node), chunk)->0;
        assert(self.node_wf(node));
        let c = self.childs_of(node)[k].1 as int;
        assert(self.node_wf(c));
    }

    /// Whether looking `s` up from `prefix` would cut, at a root, a first
    /// chunk that starts with a character of more than one byte.
    pub open spec fn root_step_panics(&self, prefix: int, s: Seq<char>) -> bool {
        &&& self.parent_of(prefix) is None
        &&& s.len() > 0
        &&& s[0] != '/'
        &&& (s[0] as int) >= 128
    }

    /// Whether the walk from `node` goes up first: `rest` neither is empty
    /// nor starts with `/`, and `node` has a parent.
    fn climbs(&self, node: usize, rest: &str) -> (b: bool)
        requires
            self.wf(),
            node < self.len(),
        ensures
            b == (rest@.len() > 0 && rest@[0] != '/' && self.parent_of(node as int) is Some),
    {
        if rest.is_empty() {
            false
        } else {
            rest.get_char(0) != '/' && self.nodes[node].parent.is_some()
        }
    }

    /// The node of the tree of `prefix` whose expression is that of `prefix`
    /// followed by `suffix`, if there is one.
    pub fn get(&self, prefix: usize, suffix: &str) -> (r: Option<usize>)
        requires
            self.wf(),
            prefix < self.len(),
            !self.root_step_panics(prefix as int, suffix@),
        ensures
            r == self.lookup(prefix as int, suffix@),
    {
        let ghost target = self.expr_of(prefix as int) + suffix@;
        let mut node = prefix;
        let mut rest: String = suffix.to_owned();
        while self.climbs(node, rest.as_str())
            invariant
                self.wf(),
                node < self.len(),
                self.root_of(node as int) == self.root_of(prefix as int),
                self.expr_of(node as int) + rest@ == target,
                target == self.expr_of(prefix as int) + suffix@,
            decreases node,
        {
            proof {
                assert(self.node_wf(node as int));
            }
            let p = match self.nodes[node].parent {
                Some(p) => p,
                None => node,
            };
            let mut up = self.nodes[node].suffix.clone();
            up.append(rest.as_str());
            proof {
                assert(self.expr_of(node as int) == self.expr_of(p as int) + self.suffix_of(
                    node as int,
                ));
                assert(self.expr_of(p as int) + up@ =~= self.expr_of(node as int) + rest@);
            }
            rest = up;
            node = p;
        }
        while !rest.as_str().is_empty()
            invariant
                self.wf(),
                node < self.len(),
                self.root_of(node as int) == self.root_of(prefix as int),
                self.expr_of(node as int) + rest@ == target,
                target == self.expr_of(prefix as int) + suffix@,
                rest@.len() > 0 ==> (rest@[0] == '/' || self.parent_of(node as int) is None),
            decreases rest@.len(),
        {
            let n = rest.as_str().unicode_len();
            let e = first_chunk_end(rest.as_str());
            proof {
                lemma_chunk_end(rest@);
            }
            let chunk = rest.as_str().substring_char(0, e);
            match named_slots_get(&self.nodes[node].childs, chunk) {
                None => {
                    proof {
                        self.lemma_missing_chunk(node as int, rest@);
                        if exists|m: int| self.spells(prefix as int, m, target) {
                            let m = choose|m: int| self.spells(prefix as int, m, target);
                            assert(self.root_of(m) == self.root_of(node as int));
                        }
                    }
                    return None;
                },
                Some(c) => {
                    proof {
                        self.lemma_listed_child(node as int, chunk@);
                    }
                    let next = rest.as_str().substring_char(e, n).to_owned();
                    proof {
                        assert(self.expr_of(c as int) + next@ =~= self.expr_of(node as int)
                            + rest@);
                        if next@.len() > 0 {
                            assert(next@[0] == rest@[e as int]);
                        }
                    }
                    rest = next;
                    node = c;
                },
            }
        }
        proof {
            assert(self.expr_of(node as int) + rest@ =~= self.expr_of(node as int));
            self.lemma_lookup(prefix as int, suffix@, node as int);
        }
        Some(node)
    }

    /// A new node holding `chunk`, listed under it as a child of `node`, with
    /// no children and no weight.
    fn add_child(&mut self, node: usize, chunk: &str) -> (c: usize)
        requires
            old(self).wf(),
            node < old(self).len(),
            is_chunk(chunk@),
            (chunk@[0] as int) < 128,
            old(self).parent_of(node as int) is Some ==> chunk@[0] == '/',
            slot_value(old(self).childs_of(node as int), chunk@) is None,
        ensures
            final(self).wf(),
            final(self).keeps(old(self)),
            c == old(self).len(),
            final(self).len() == old(self).len() + 1,
            final(self).parent_of(c as int) == Some(node),
            final(self).suffix_of(c as int) == chunk@,
            final(self).expr_of(c as int) == old(self).expr_of(node as int) + chunk@,
            final(self).root_of(c as int) == old(self).root_of(node as int),
            final(self).weights_extend(old(self)),
    {
        proof {
            assert(self.nodes@.len() == self.nodes.len());
        }
        let c = self.nodes.len();
        self.nodes.push(
            ResNode { parent: Some(node), suffix: chunk.to_owned(), childs: named_slots_new() },
        );
        self.weights.push(None);
        named_slots_insert(&mut self.nodes[node].childs, chunk.to_owned(), c);
        proof {
            assert(self.nodes@.len() == self.nodes.len());
            let ghost before = old(self).childs_of(node as int);
            assert(self.childs_of(node as int) == before.push((chunk@, c)));
            assert forall|j: int| 0 <= j < old(self).len() implies #[trigger] self.parent_of(j)
                == old(self).parent_of(j) && self.suffix_of(j) == old(self).suffix_of(j) by {}
            self.lemma_keeps(old(self));
            assert forall|i: int| 0 <= i < self.len() implies #[trigger] self.node_wf(i) by {
                if i < c {
                    assert(old(self).node_wf(i));
                    if i != node {
                        assert(self.childs_of(i) == old(self).childs_of(i));
                    } else {
                        assert forall|k: int|
                            #![trigger self.childs_of(i)[k]]
                            0 <= k < self.childs_of(i).len() implies {
                            let ch = self.childs_of(i)[k].1;
                            &&& ch < self.len()
                            &&& self.parent_of(ch as int) == Some(i as usize)
                            &&& self.suffix_of(ch as int) == self.childs_of(i)[k].0
                        } by {
                            if k < before.len() {
                                assert(self.childs_of(i)[k] == before[k]);
                            }
                        }
                        lemma_first_slot(before, chunk@, 0);
                        assert(keys_unique(self.childs_of(i))) by {
                            let e = self.childs_of(i);
                            assert forall|a: int, b: int| 0 <= a < b < e.len() implies e[a].0
                                != e[b].0 by {
                                assert(e[a] == before[a]);
                                if b < before.len() {
                                    assert(e[b] == before[b]);
                                }
                            }
                        }
                    }
                    if let Some(p) = self.parent_of(i) {
                        let key = self.suffix_of(i);
                        if p as int == node as int {
                            lemma_first_slot(before, chunk@, 0);
                            lemma_first_slot(before, key, 0);
                            lemma_first_slot_push(before, (chunk@, c), key, 0);
                            let k = slot_position(before, key)->0;
                            assert(self.childs_of(node as int)[k] == before[k]);
                        } else {
                            assert(self.childs_of(p as int) == old(self).childs_of(p as int));
                        }
                    }
                } else {
                    assert(i == c);
                    assert(self.childs_of(i).len() == 0);
                    lemma_first_slot_push(before, (chunk@, c), chunk@, 0);
                    assert(self.expr_of(c as int) == self.expr_of(node as int) + chunk@);
                }
            }
            assert(self.expr_of(c as int) == self.expr_of(node as int) + chunk@);
            assert(self.root_of(c as int) == self.root_of(node as int));
        }
        c
    }

    /// Every slot of `old` keeps its weight, and the slots added after them
    /// have none.
    pub open spec fn weights_extend(&self, old: &Self) -> bool {
        &&& old.len() <= self.len()
        &&& forall|i: int|
            0 <= i < self.len() ==> #[trigger] self.weight_of(i) == (if i < old.len() {
                old.weight_of(i)
            } else {
                None
            })
    }

    /// The node of the tree of `prefix` whose expression is that of `prefix`
    /// followed by `suffix`; the nodes it lacks on the way down are made
    /// first, without weight. It gets `weight` if it has none yet.
    pub fn get_or_insert_with(&mut self, prefix: usize, suffix: &str, weight: Weight) -> (r: usize)
        requires
            old(self).wf(),
            prefix < old(self).len(),
            !old(self).root_step_panics(prefix as int, suffix@),
        ensures
            final(self).wf(),
            final(self).keeps(old(self)),
            final(self).spells(
                prefix as int,
                r as int,
                old(self).expr_of(prefix as int) + suffix@,
            ),
            old(self).lookup(prefix as int, suffix@) matches Some(n) ==> r == n
                && final(self).len() == old(self).len(),
            old(self).lookup(prefix as int, suffix@) is None ==> r >= old(self).len(),
            final(self).weight_of(r as int) == (if r < old(self).len()
                && old(self).weight_of(r as int) is Some {
                old(self).weight_of(r as int)
            } else {
                Some(weight)
            }),
            forall|i: int|
                0 <= i < final(self).len() && i != r ==> #[trigger] final(self).weight_of(i)
                    == (if i < old(self).len() {
                    old(self).weight_of(i)
                } else {
                    None
                }),
            forall|i: int|
                old(self).len() <= i < final(self).len() ==> {
                    &&& #[trigger] final(self).root_of(i) == old(self).root_of(prefix as int)
                    &&& is_prefix(
                        final(self).expr_of(i),
                        old(self).expr_of(prefix as int) + suffix@,
                    )
                },
    {
        let ghost target = self.expr_of(prefix as int) + suffix@;
        let mut node = prefix;
        let mut rest: String = suffix.to_owned();
        while self.climbs(node, rest.as_str())
            invariant
                self.wf(),
                node < self.len(),
                self.root_of(node as int) == self.root_of(prefix as int),
                self.expr_of(node as int) + rest@ == target,
                target == self.expr_of(prefix as int) + suffix@,
                rest@.len() > 0 && rest@[0] != '/' && self.parent_of(node as int) is None ==> (
                rest@[0] as int) < 128,
            decreases node,
        {
            proof {
                assert(self.node_wf(node as int));
            }
            let p = match self.nodes[node].parent {
                Some(p) => p,
                None => node,
            };
            let mut up = self.nodes[node].suffix.clone();
            up.append(rest.as_str());
            proof {
                assert(self.expr_of(node as int) == self.expr_of(p as int) + self.suffix_of(
                    node as int,
                ));
                assert(self.expr_of(p as int) + up@ =~= self.expr_of(node as int) + rest@);
                assert(up@[0] == self.suffix_of(node as int)[0]);
            }
            rest = up;
            node = p;
        }
        let ghost start = *self;
        while !rest.as_str().is_empty()
            invariant
                self.wf(),
                start.wf(),
                start == *old(self),
                prefix < start.len(),
                node < self.len(),
                self.keeps(&start),
                self.weights_extend(&start),
                self.root_of(node as int) == start.root_of(prefix as int),
                self.expr_of(node as int) + rest@ == target,
                target == start.expr_of(prefix as int) + suffix@,
                rest@.len() > 0 ==> (rest@[0] == '/' || self.parent_of(node as int) is None),
                rest@.len() > 0 && rest@[0] != '/' && self.parent_of(node as int) is None ==> (
                rest@[0] as int) < 128,
                start.lookup(prefix as int, suffix@) is Some ==> self.len() == start.len(),
                forall|i: int|
                    start.len() <= i < self.len() ==> {
                        &&& #[trigger] self.root_of(i) == start.root_of(prefix as int)
                        &&& is_prefix(self.expr_of(i), target)
                    },
            decreases rest@.len(),
        {
            let n = rest.as_str().unicode_len();
            let e = first_chunk_end(rest.as_str());
            proof {
                lemma_chunk_end(rest@);
            }
            let chunk = rest.as_str().substring_char(0, e);
            let c = match named_slots_get(&self.nodes[node].childs, chunk) {
                Some(c) => {
                    proof {
                        self.lemma_listed_child(node as int, chunk@);
                    }
                    c
                },
                None => {
                    proof {
                        self.lemma_missing_chunk(node as int, rest@);
                        if exists|m: int| start.spells(prefix as int, m, target) {
                            let m = choose|m: int| start.spells(prefix as int, m, target);
                            assert(self.root_of(m) == start.root_of(m));
                            assert(self.expr_of(m) == start.expr_of(m));
                        }
                        assert(self.node_wf(node as int));
                        assert(chunk@[0] == rest@[0]);
                    }
                    let ghost before = *self;
                    let c = self.add_child(node, chunk);
                    proof {
                        assert forall|i: int| start.len() <= i < self.len() implies {
                            &&& #[trigger] self.root_of(i) == start.root_of(prefix as int)
                            &&& is_prefix(self.expr_of(i), target)
                        } by {
                            if i < before.len() {
                                assert(before.root_of(i) == start.root_of(prefix as int));
                            } else {
                                assert(target.subrange(0, self.expr_of(i).len() as int)
                                    =~= self.expr_of(i));
                            }
                        }
                        assert forall|i: int| 0 <= i < start.len() implies {
                            &&& #[trigger] self.parent_of(i) == start.parent_of(i)
                            &&& self.suffix_of(i) == start.suffix_of(i)
                            &&& self.expr_of(i) == start.expr_of(i)
                            &&& self.root_of(i) == start.root_of(i)
                        } by {
                            assert(before.parent_of(i) == start.parent_of(i));
                        }
                        assert forall|i: int| 0 <= i < self.len() implies #[trigger] self.weight_of(i)
                            == (if i < start.len() {
                            start.weight_of(i)
                        } else {
                            None
                        }) by {
                            if i < before.len() {
                                assert(before.weight_of(i) == (if i < start.len() {
                                    start.weight_of(i)
                                } else {
                                    None
                                }));
                            }
                        }
                    }
                    c
                },
            };
            let next = rest.as_str().substring_char(e, n).to_owned();
            proof {
                assert(self.expr_of(c as int) + next@ =~= self.expr_of(node as int) + rest@);
                if next@.len() > 0 {
                    assert(next@[0] == rest@[e as int]);
                }
            }
            rest = next;
            node = c;
        }
        proof {
            assert(self.expr_of(node as int) + rest@ =~= self.expr_of(node as int));
            if let Some(m) = start.lookup(prefix as int, suffix@) {
                let m = choose|m: int| start.spells(prefix as int, m, target);
                assert(self.root_of(m) == start.root_of(m));
                self.lemma_unique(m, node as int);
            }
            if node < start.len() {
                assert(start.spells(prefix as int, node as int, target));
                start.lemma_lookup(prefix as int, suffix@, node as int);
            }
        }
        let ghost mid = *self;
        if self.weights[node].is_none() {
            self.weights[node] = Some(weight);
        }
        proof {
            assert(self.nodes@ == mid.nodes@);
            assert(mid.weights_extend(&start));
            assert(self.weight_of(node as int) == (if mid.weight_of(node as int) is Some {
                mid.weight_of(node as int)
            } else {
                Some(weight)
            }));
            assert forall|i: int| 0 <= i < self.len() && i != node implies #[trigger] self.weight_of(i)
                == mid.weight_of(i) by {}
            assert(mid.weight_of(node as int) == (if node < start.len() {
                start.weight_of(node as int)
            } else {
                None
            }));
            assert forall|i: int| 0 <= i < self.len() implies #[trigger] self.node_wf(i) by {
                assert(mid.node_wf(i));
                assert(self.childs_of(i) == mid.childs_of(i));
                if let Some(p) = self.parent_of(i) {
                    assert(self.childs_of(p as int) == mid.childs_of(p as int));
                }
            }
            self.lemma_keeps(&mid);
            assert forall|i: int| 0 <= i < start.len() implies {
                &&& #[trigger] self.parent_of(i) == start.parent_of(i)
                &&& self.suffix_of(i) == start.suffix_of(i)
                &&& self.expr_of(i) == start.expr_of(i)
                &&& self.root_of(i) == start.root_of(i)
            } by {
                assert(mid.parent_of(i) == start.parent_of(i));
            }
            assert forall|i: int| start.len() <= i < self.len() implies {
                &&& #[trigger] self.root_of(i) == start.root_of(prefix as int)
                &&& is_prefix(self.expr_of(i), target)
            } by {
                assert(mid.root_of(i) == start.root_of(prefix as int));
            }
        }
        node
    }

    /// The key expression of a node.
    pub fn expr(&self, index: usize) -> (e: String)
        requires
            self.wf(),
            index < self.len(),
        ensures
            e@ == self.expr_of(index as int),
        decreases index,
    {
        proof {
            assert(self.node_wf(index as int));
        }
        match self.nodes[index].parent {
            Some(p) => {
                let mut e = self.expr(p);
                e.append(self.nodes[index].suffix.as_str());
                e
            },
            None => String::new(),
        }
    }

    /// The weight of a node that has one.
    pub fn weight(&self, index: usize) -> (w: &Weight)
        requires
            self.wf(),
            index < self.len(),
            self.weight_of(index as int) is Some,
        ensures
            Some(*w) == self.weight_of(index as int),
    {
        self.weights[index].as_ref().unwrap()
    }

    /// The weight of a node that has one, to be changed in place.
    pub fn weight_mut(&mut self, index: usize) -> (w: &mut Weight)
        requires
            old(self).wf(),
            index < old(self).len(),
            old(self).weight_of(index as int) is Some,
        ensures
            Some(*w) == old(self).weight_of(index as int),
            final(self).wf(),
            final(self).same_nodes(old(self)),
            final(self).len() == old(self).len(),
            final(self).weight_of(index as int) == Some(*final(w)),
            forall|i: int|
                0 <= i < old(self).len() && i != index ==> #[trigger] final(self).weight_of(i)
                    == old(self).weight_of(i),
    {
        proof {
            self.lemma_wf_any_weights();
        }
        self.weights[index].as_mut().unwrap()
    }

    /// Well-formedness does not depend on the weights, only on how many there are.
    proof fn lemma_wf_any_weights(&self)
        requires
            self.wf(),
        ensures
            forall|t: Self| #[trigger] t.nodes@ == self.nodes@ && t.weights@.len() == self.weights@.len() ==> t.wf(),
    {
        assert forall|t: Self| #[trigger] t.nodes@ == self.nodes@ && t.weights@.len() == self.weights@.len() implies t.wf() by {
            assert forall|i: int| 0 <= i < t.len() implies #[trigger] t.node_wf(i) by {
                assert(self.node_wf(i));
            }
        }
    }

    /// The nodes met on the way down from `node` along the chunks of `rest`,
    /// as long as each chunk is listed: those with a weight, in order of
    /// depth.
    pub open spec fn path_nodes(&self, node: int, rest: Seq<char>) -> Seq<usize>
        decreases rest.len(),
    {
        let e = chunk_end(rest);
        if rest.len() == 0 || e < 1 || e > rest.len() {
            Seq::empty()
        } else {
            match slot_value(self.childs_of(node), rest.subrange(0, e)) {
                None => Seq::empty(),
                Some(c) => (if self.weight_of(c as int) is Some {
                    seq![c]
                } else {
                    Seq::empty()
                }) + self.path_nodes(c as int, rest.subrange(e, rest.len() as int)),
            }
        }
    }

    /// A walker that hands out `from`'s weighted descendants along the chunks
    /// of `path`, the deepest first, and `from` last.
    pub fn reverse_path(&self, from: usize, path: &str) -> (w: ReversePath)
        requires
            self.wf(),
            from < self.len(),
        ensures
            w.pending() == seq![from] + self.path_nodes(from as int, path@),
    {
        let mut stack: Vec<usize> = vec![from];
        let mut current = from;
        let mut rest: String = path.to_owned();
        while !rest.as_str().is_empty()
            invariant
                self.wf(),
                current < self.len(),
                seq![from] + self.path_nodes(from as int, path@) == stack@ + self.path_nodes(
                    current as int,
                    rest@,
                ),
            decreases rest@.len(),
        {
            let n = rest.as_str().unicode_len();
            let e = first_chunk_end(rest.as_str());
            proof {
                lemma_chunk_end(rest@);
            }
            let chunk = rest.as_str().substring_char(0, e);
            match named_slots_get(&self.nodes[current].childs, chunk) {
                Some(c) => {
                    proof {
                        self.lemma_listed_child(current as int, chunk@);
                    }
                    let ghost before = stack@;
                    if self.weights[c].is_some() {
                        stack.push(c);
                    }
                    let next = rest.as_str().substring_char(e, n).to_owned();
                    proof {
                        assert(stack@ + self.path_nodes(c as int, next@) =~= before
                            + self.path_nodes(current as int, rest@));
                    }
                    rest = next;
                    current = c;
                },
                None => {
                    proof {
                        assert(stack@ + self.path_nodes(current as int, rest@) =~= stack@);
                    }
                    rest = String::new();
                    proof {
                        assert(self.path_nodes(current as int, rest@) =~= Seq::<usize>::empty());
                    }
                },
            }
        }
        proof {
            assert(stack@ + self.path_nodes(current as int, rest@) =~= stack@);
        }
        ReversePath { stack }
    }

    /// The weighted nodes of the subtree of `n`, depth first: `n` itself,
    /// then the subtree of each child in the order the children are stored.
    pub open spec fn preorder(&self, n: int) -> Seq<usize>
        decreases self.len() - n, 1int, 0int,
    {
        if 0 <= n < self.len() {
            (if self.weight_of(n) is Some {
                seq![n as usize]
            } else {
                Seq::empty()
            }) + self.preorder_from_child(n, 0)
        } else {
            Seq::empty()
        }
    }

    /// The subtrees of the children of `n` stored at `k` and after, in
    /// storage order.
    pub open spec fn preorder_from_child(&self, n: int, k: int) -> Seq<usize>
        decreases self.len() - n, 0int, self.childs_of(n).len() - k,
    {
        if 0 <= n < self.len() && 0 <= k < self.childs_of(n).len() {
            let c = self.childs_of(n)[k].1 as int;
            if n < c < self.len() {
                self.preorder(c) + self.preorder_from_child(n, k + 1)
            } else {
                self.preorder_from_child(n, k + 1)
            }
        } else {
            Seq::empty()
        }
    }

    /// How many steps a depth-first walk of the subtree of `n` takes.
    pub open spec fn visit_work(&self, n: int) -> nat
        decreases self.len() - n, 1int, 0int,
    {
        if 0 <= n < self.len() {
            1 + self.visit_work_from_child(n, 0)
        } else {
            0
        }
    }

    /// How many steps the rest of a depth-first walk of the children of `n`
    /// takes, from the one stored at `k` on.
    pub open spec fn visit_work_from_child(&self, n: int, k: int) -> nat
        decreases self.len() - n, 0int, self.childs_of(n).len() - k,
    {
        if 0 <= n < self.len() && 0 <= k < self.childs_of(n).len() {
            let c = self.childs_of(n)[k].1 as int;
            if n < c < self.len() {
                1 + self.visit_work(c) + self.visit_work_from_child(n, k + 1)
            } else {
                1 + self.visit_work_from_child(n, k + 1)
            }
        } else {
            1
        }
    }

    proof fn lemma_child_bound(&self, node: int)
        requires
            self.wf(),
            0 <= node < self.len(),
        ensures
            self.childs_of(node).len() < self.len() <= usize::MAX,
    {
        assert(self.node_wf(node));
    }

    /// One step of a walk over the children of `node`.
    proof fn lemma_walk_step(&self, node: int, k: int)
        requires
            self.wf(),
            0 <= node < self.len(),
            0 <= k < self.childs_of(node).len(),
        ensures
            ({
                let c = self.childs_of(node)[k].1 as int;
                &&& node < c < self.len()
                &&& self.preorder_from_child(node, k) == self.preorder(c)
                    + self.preorder_from_child(node, k + 1)
                &&& self.visit_work_from_child(node, k) == 1 + self.visit_work(c)
                    + self.visit_work_from_child(node, k + 1)
            }),
    {
        assert(self.node_wf(node));
        let c = self.childs_of(node)[k].1 as int;
        assert(self.node_wf(c));
    }

    /// Whether `n` is `r` or lies below it.
    pub open spec fn descends(&self, n: int, r: int) -> bool
        decreases n,
    {
        if n == r {
            true
        } else if 0 <= n < self.len() {
            match self.parent_of(n) {
                Some(p) => if p < n {
                    self.descends(p as int, r)
                } else {
                    false
                },
                None => false,
            }
        } else {
            false
        }
    }

    /// What lies below a child of `r` lies below `r`, and not above `r`.
    proof fn lemma_descends_through(&self, x: int, c: int, r: int)
        requires
            self.wf(),
            0 <= r < self.len(),
            0 <= c < self.len(),
            self.parent_of(c) == Some(r as usize),
            self.descends(x, c),
        ensures
            self.descends(x, r),
            x != r,
            c <= x,
        decreases x,
    {
        assert(self.node_wf(c));
        assert(self.descends(r, r));
        if x != c {
            assert(self.node_wf(x));
            let p = self.parent_of(x)->0 as int;
            self.lemma_descends_through(p, c, r);
        }
    }

    /// Nothing lies below two different children of one node.
    proof fn lemma_one_branch(&self, x: int, c1: int, c2: int, r: int)
        requires
            self.wf(),
            0 <= r < self.len(),
            0 <= c1 < self.len(),
            0 <= c2 < self.len(),
            self.parent_of(c1) == Some(r as usize),
            self.parent_of(c2) == Some(r as usize),
            self.descends(x, c1),
            self.descends(x, c2),
        ensures
            c1 == c2,
        decreases x,
    {
        if x == c1 && x != c2 {
            assert(self.node_wf(c1));
            assert(self.descends(r, c2));
            self.lemma_descends_through(r, c2, r);
        } else if x == c2 && x != c1 {
            assert(self.node_wf(c2));
            assert(self.descends(r, c1));
            self.lemma_descends_through(r, c1, r);
        } else if x != c1 && x != c2 {
            assert(self.node_wf(x));
            let p = self.parent_of(x)->0 as int;
            self.lemma_one_branch(p, c1, c2, r);
        }
    }

    /// The child of `r` on the way down to a node strictly below `r`.
    proof fn lemma_child_towards(&self, x: int, r: int) -> (c: int)
        requires
            self.wf(),
            0 <= r < self.len(),
            self.descends(x, r),
            x != r,
        ensures
            0 <= c < self.len(),
            self.parent_of(c) == Some(r as usize),
            self.descends(x, c),
        decreases x,
    {
        assert(self.node_wf(x));
        let p = self.parent_of(x)->0 as int;
        if p == r {
            x
        } else {
            let c = self.lemma_child_towards(p, r);
            assert(self.descends(x, c)) by {
                assert(self.descends(p, c));
            }
            c
        }
    }

    /// The nodes a walk from the children of `r` stored at `k` and after
    /// hands out: weighted, below one of those children, each once.
    proof fn lemma_preorder_from_child_sound(&self, r: int, k: int)
        requires
            self.wf(),
            0 <= r < self.len(),
            0 <= k,
        ensures
            self.preorder_from_child(r, k).no_duplicates(),
            forall|i: int|
                0 <= i < self.preorder_from_child(r, k).len() ==> {
                    let x = #[trigger] self.preorder_from_child(r, k)[i] as int;
                    &&& 0 <= x < self.len()
                    &&& self.weight_of(x) is Some
                    &&& exists|j: int|
                        k <= j < self.childs_of(r).len() && self.descends(
                            x,
                            #[trigger] self.childs_of(r)[j].1 as int,
                        )
                },
        decreases self.len() - r, 0int, self.childs_of(r).len() - k,
    {
        assert(self.node_wf(r));
        if k < self.childs_of(r).len() {
            let c = self.childs_of(r)[k].1 as int;
            assert(self.node_wf(c));
            self.lemma_preorder_sound(c);
            self.lemma_preorder_from_child_sound(r, k + 1);
            let a = self.preorder(c);
            let b = self.preorder_from_child(r, k + 1);
            let ab = self.preorder_from_child(r, k);
            assert(ab == a + b);
            assert forall|i: int| 0 <= i < ab.len() implies {
                let x = #[trigger] ab[i] as int;
                &&& 0 <= x < self.len()
                &&& self.weight_of(x) is Some
                &&& exists|j: int|
                    k <= j < self.childs_of(r).len() && self.descends(
                        x,
                        #[trigger] self.childs_of(r)[j].1 as int,
                    )
            } by {
                if i < a.len() {
                    assert(ab[i] == a[i]);
                    assert(self.childs_of(r)[k].1 as int == c);
                } else {
                    assert(ab[i] == b[i - a.len()]);
                }
            }
            assert forall|i: int, j: int| 0 <= i < ab.len() && 0 <= j < ab.len() && i != j implies ab[i]
                != ab[j] by {
                if i < a.len() && j >= a.len() || j < a.len() && i >= a.len() {
                    let (ia, jb) = if i < a.len() { (i, j - a.len()) } else { (j, i - a.len()) };
                    assert(ab[if i < a.len() { i } else { j }] == a[ia]);
                    let x = b[jb] as int;
                    let m = choose|m: int|
                        k + 1 <= m < self.childs_of(r).len() && self.descends(
                            x,
                            #[trigger] self.childs_of(r)[m].1 as int,
                        );
                    if a[ia] == b[jb] {
                        let cm = self.childs_of(r)[m].1 as int;
                        assert(self.node_wf(cm));
                        self.lemma_one_branch(x, c, cm, r);
                        lemma_unique_slot(self.childs_of(r), k, 0);
                        lemma_unique_slot(self.childs_of(r), m, 0);
                        assert(self.suffix_of(c) == self.childs_of(r)[k].0);
                        assert(self.suffix_of(cm) == self.childs_of(r)[m].0);
                    }
                } else if i < a.len() {
                    assert(ab[i] == a[i] && ab[j] == a[j]);
                } else {
                    assert(ab[i] == b[i - a.len()] && ab[j] == b[j - a.len()]);
                }
            }
        }
    }

    /// The nodes a walk from `r` hands out: weighted, at or below `r`, each
    /// once.
    proof fn lemma_preorder_sound(&self, r: int)
        requires
            self.wf(),
            0 <= r < self.len(),
        ensures
            self.preorder(r).no_duplicates(),
            forall|i: int|
                0 <= i < self.preorder(r).len() ==> {
                    let x = #[trigger] self.preorder(r)[i] as int;
                    &&& 0 <= x < self.len()
                    &&& self.weight_of(x) is Some
                    &&& self.descends(x, r)
                },
        decreases self.len() - r, 1int, 0int,
    {
        self.lemma_preorder_from_child_sound(r, 0);
        let head: Seq<usize> = if self.weight_of(r) is Some {
            seq![r as usize]
        } else {
            Seq::empty()
        };
        let rest = self.preorder_from_child(r, 0);
        let all = self.preorder(r);
        assert(all == head + rest);
        assert forall|i: int| 0 <= i < rest.len() implies {
            let x = #[trigger] rest[i] as int;
            &&& self.descends(x, r)
            &&& x != r
        } by {
            let x = rest[i] as int;
            let j = choose|j: int|
                0 <= j < self.childs_of(r).len() && self.descends(
                    x,
                    #[trigger] self.childs_of(r)[j].1 as int,
                );
            assert(self.node_wf(r));
            let c = self.childs_of(r)[j].1 as int;
            self.lemma_descends_through(x, c, r);
        }
        assert forall|i: int| 0 <= i < all.len() implies {
            let x = #[trigger] all[i] as int;
            &&& 0 <= x < self.len()
            &&& self.weight_of(x) is Some
            &&& self.descends(x, r)
        } by {
            if i >= head.len() {
                assert(all[i] == rest[i - head.len()]);
            }
        }
        assert forall|i: int, j: int| 0 <= i < all.len() && 0 <= j < all.len() && i != j implies all[i]
            != all[j] by {
            if i >= head.len() && j >= head.len() {
                assert(all[i] == rest[i - head.len()] && all[j] == rest[j - head.len()]);
            } else if i >= head.len() {
                assert(all[i] == rest[i - head.len()]);
            } else if j >= head.len() {
                assert(all[j] == rest[j - head.len()]);
            }
        }
    }

    /// A walk from the children of `r` stored at `k` and after hands out the
    /// walk from each of them.
    proof fn lemma_preorder_from_child_covers(&self, r: int, k: int, m: int, x: usize)
        requires
            self.wf(),
            0 <= r < self.len(),
            0 <= k <= m < self.childs_of(r).len(),
            self.preorder(self.childs_of(r)[m].1 as int).contains(x),
        ensures
            self.preorder_from_child(r, k).contains(x),
        decreases m - k,
    {
        assert(self.node_wf(r));
        let c = self.childs_of(r)[k].1 as int;
        assert(self.node_wf(c));
        let a = self.preorder(c);
        let b = self.preorder_from_child(r, k + 1);
        assert(self.preorder_from_child(r, k) == a + b);
        if k == m {
            let i = choose|i: int| 0 <= i < a.len() && a[i] == x;
            assert((a + b)[i] == x);
        } else {
            self.lemma_preorder_from_child_covers(r, k + 1, m, x);
            let i = choose|i: int| 0 <= i < b.len() && b[i] == x;
            assert((a + b)[a.len() + i] == x);
        }
    }

    /// A walk from `r` hands out every weighted node at or below `r`.
    proof fn lemma_preorder_complete(&self, r: int, x: int)
        requires
            self.wf(),
            0 <= r < self.len(),
            0 <= x < self.len(),
            self.weight_of(x) is Some,
            self.descends(x, r),
        ensures
            self.preorder(r).contains(x as usize),
        decreases self.len() - r,
    {
        let head: Seq<usize> = if self.weight_of(r) is Some {
            seq![r as usize]
        } else {
            Seq::empty()
        };
        let rest = self.preorder_from_child(r, 0);
        assert(self.preorder(r) == head + rest);
        if x == r {
            assert((head + rest)[0] == r as usize);
        } else {
            let c = self.lemma_child_towards(x, r);
            assert(self.node_wf(c));
            assert(self.node_wf(r));
            lemma_first_slot(self.childs_of(r), self.suffix_of(c), 0);
            let m = slot_position(self.childs_of(r), self.suffix_of(c))->0;
            assert(self.childs_of(r)[m].1 as int == c);
            self.lemma_preorder_complete(c, x);
            self.lemma_preorder_from_child_covers(r, 0, m, x as usize);
            let i = choose|i: int| 0 <= i < rest.len() && rest[i] == x as usize;
            assert((head + rest)[head.len() + i] == x as usize);
        }
    }

    /// A depth-first walk from a node hands out each weighted node at or
    /// below it, and nothing else, exactly once.
    pub proof fn lemma_preorder(&self, r: int)
        requires
            self.wf(),
            0 <= r < self.len(),
        ensures
            self.preorder(r).no_duplicates(),
            forall|x: int|
                0 <= x < self.len() ==> (self.preorder(r).contains(x as usize) <==> (self.weight_of(
                    x,
                ) is Some && self.descends(x, r))),
    {
        self.lemma_preorder_sound(r);
        assert forall|x: int| 0 <= x < self.len() implies (self.preorder(r).contains(x as usize)
            <==> (self.weight_of(x) is Some && self.descends(x, r))) by {
            if self.preorder(r).contains(x as usize) {
                let i = choose|i: int| 0 <= i < self.preorder(r).len() && self.preorder(r)[i] == x as usize;
                assert(self.wf());
                assert((self.preorder(r)[i] as int) == x) by {
                    assert(self.nodes@.len() <= usize::MAX);
                }
            }
            if self.weight_of(x) is Some && self.descends(x, r) {
                self.lemma_preorder_complete(r, x);
            }
        }
    }

    /// A depth-first walk of the weighted nodes of the subtree of `from`.
    pub fn visit_from(&self, from: usize) -> (v: Visit)
        requires
            self.wf(),
            from < self.len(),
        ensures
            v.fits(self),
            v.remaining(self) == self.preorder(from as int),
    {
        let v = Visit { stack: vec![(from, None)] };
        proof {
            let empty = Seq::<(usize, Option<VecMapWalker<String, usize>>)>::empty();
            assert(v.stack@ =~= empty.push((from, None)));
            lemma_stack_push(self, empty, (from, None));
            assert(self.preorder(from as int) + Seq::<usize>::empty() =~= self.preorder(
                from as int,
            ));
        }
        v
    }

    /// Take a childless node out of its tree: its parent no longer lists it,
    /// it has no parent, and its weight is handed back.
    fn detach(&mut self, node: usize) -> (w: Option<Weight>)
        requires
            old(self).wf(),
            node < old(self).len(),
            old(self).parent_of(node as int) is Some,
            old(self).childs_of(node as int).len() == 0,
        ensures
            final(self).wf(),
            final(self).len() == old(self).len(),
            w == old(self).weight_of(node as int),
            final(self).parent_of(node as int) is None,
            final(self).childs_of(node as int).len() == 0,
            final(self).weight_of(node as int) is None,
            ({
                let p = old(self).parent_of(node as int)->0 as int;
                let pos = slot_position(old(self).childs_of(p), old(self).suffix_of(node as int));
                &&& pos is Some
                &&& final(self).childs_of(p) == swap_removed(old(self).childs_of(p), pos->0)
                &&& forall|i: int|
                    0 <= i < old(self).len() && i != node && i != p
                        ==> #[trigger] final(self).childs_of(i) == old(self).childs_of(i)
            }),
            forall|i: int|
                0 <= i < old(self).len() && i != node
                    ==> #[trigger] final(self).parent_of(i) == old(self).parent_of(i)
                    && final(self).weight_of(i) == old(self).weight_of(i),
            forall|i: int|
                0 <= i < old(self).len()
                    ==> #[trigger] final(self).suffix_of(i) == old(self).suffix_of(i),
    {
        proof {
            assert(self.node_wf(node as int));
        }
        let p = match self.nodes[node].parent {
            Some(p) => p,
            None => node,
        };
        let ghost before = old(self).childs_of(p as int);
        let ghost key = old(self).suffix_of(node as int);
        proof {
            assert(self.node_wf(p as int));
            lemma_first_slot(before, key, 0);
        }
        let ghost pos = slot_position(before, key)->0;
        let key_string = self.nodes[node].suffix.clone();
        named_slots_remove(&mut self.nodes[p].childs, key_string.as_str());
        self.nodes[node].parent = None;
        let w = self.weights[node].take();
        proof {
            assert(self.nodes@.len() == self.nodes.len());
            lemma_swap_removed(before, pos);
            assert(before[pos].0 == key);
            assert(self.childs_of(p as int) == swap_removed(before, pos));
            assert forall|i: int| 0 <= i < self.len() implies #[trigger] self.node_wf(i) by {
                assert(old(self).node_wf(i));
                if i == node as int {
                    assert(self.childs_of(i).len() == 0);
                } else {
                    if i != p as int {
                        assert(self.childs_of(i) == old(self).childs_of(i));
                    } else {
                        let e = self.childs_of(i);
                        assert forall|k: int|
                            #![trigger e[k]]
                            0 <= k < e.len() implies {
                            let ch = e[k].1;
                            &&& ch < self.len()
                            &&& self.parent_of(ch as int) == Some(i as usize)
                            &&& self.suffix_of(ch as int) == e[k].0
                        } by {
                            let ok = if k == pos { before.len() - 1 } else { k };
                            assert(e[k] == before[ok]);
                            if before[ok].1 == node {
                                lemma_unique_slot(before, ok, 0);
                                assert(before[ok].0 == key);
                                lemma_unique_slot(before, pos, 0);
                            }
                        }
                    }
                    if let Some(q) = self.parent_of(i) {
                        if q == node {
                            assert(old(self).parent_of(i) == Some(node));
                            assert(slot_value(old(self).childs_of(node as int), old(self).suffix_of(i))
                                == Some(i as usize));
                            assert(false);
                        }
                        if q == p {
                            let ki = old(self).suffix_of(i);
                            if ki == key {
                                assert(slot_value(before, key) == Some(node));
                                assert(slot_value(before, ki) == Some(i as usize));
                                assert(false);
                            }
                            assert(slot_value(swap_removed(before, pos), ki) == slot_value(before, ki));
                        } else {
                            assert(self.childs_of(q as int) == old(self).childs_of(q as int));
                        }
                    }
                }
            }
        }
        w
    }

    /// Whether node `i` goes when the tree is cleaned: it has a parent,
    /// nothing outside the tree holds it (`held` says which nodes are held),
    /// and it has no child but `child`, the node that went just before it.
    pub open spec fn removable(&self, i: int, held: Seq<bool>, child: Option<int>) -> bool {
        &&& 0 <= i < self.len()
        &&& self.parent_of(i) is Some
        &&& !held[i]
        &&& match child {
            None => self.childs_of(i).len() == 0,
            Some(c) => self.childs_of(i).len() == 1 && self.childs_of(i)[0].1 == c,
        }
    }

    /// The nodes cleaning from `i` removes: `i` if it can go, then each
    /// ancestor in turn as long as it can go.
    pub open spec fn clean_chain(&self, i: int, held: Seq<bool>, child: Option<int>) -> Seq<usize>
        decreases i,
    {
        if self.removable(i, held, child) {
            let p = self.parent_of(i)->0 as int;
            if 0 <= p < i {
                seq![i as usize] + self.clean_chain(p, held, Some(i))
            } else {
                seq![i as usize]
            }
        } else {
            Seq::empty()
        }
    }

    /// A clean chain starts at its node and goes strictly up.
    proof fn lemma_chain_shape(&self, i: int, held: Seq<bool>, child: Option<int>)
        requires
            self.wf(),
        ensures
            ({
                let ch = self.clean_chain(i, held, child);
                &&& ch.len() > 0 ==> ch[0] == i && 0 <= i < self.len()
                &&& forall|a: int, b: int| 0 <= a < b < ch.len() ==> ch[a] > ch[b]
                &&& forall|a: int| 0 <= a < ch.len() ==> ch[a] <= i
                &&& forall|a: int|
                    0 <= a && a + 1 < ch.len() ==> self.parent_of(ch[a] as int) == Some(ch[a + 1])
                &&& forall|a: int|
                    0 <= a < ch.len() ==> self.removable(
                        #[trigger] ch[a] as int,
                        held,
                        if a == 0 { child } else { Some(ch[a - 1] as int) },
                    )
            }),
        decreases i,
    {
        if self.removable(i, held, child) {
            let p = self.parent_of(i)->0 as int;
            assert(self.node_wf(i));
            self.lemma_chain_shape(p, held, Some(i));
            let rest = self.clean_chain(p, held, Some(i));
            let ch = self.clean_chain(i, held, child);
            assert(ch == seq![i as usize] + rest);
            assert forall|a: int| 0 <= a < ch.len() implies ch[a] <= i by {
                if a > 0 {
                    assert(ch[a] == rest[a - 1]);
                }
            }
            assert forall|a: int, b: int| 0 <= a < b < ch.len() implies ch[a] > ch[b] by {
                assert(ch[b] == rest[b - 1]);
                if a > 0 {
                    assert(ch[a] == rest[a - 1]);
                }
            }
            assert forall|a: int| 0 <= a && a + 1 < ch.len() implies self.parent_of(ch[a] as int)
                == Some(ch[a + 1]) by {
                assert(ch[a + 1] == rest[a]);
                if a > 0 {
                    assert(ch[a] == rest[a - 1]);
                } else {
                    assert(ch[0] == i);
                    assert(rest[0] == p);
                }
            }
            assert forall|a: int| 0 <= a < ch.len() implies self.removable(
                #[trigger] ch[a] as int,
                held,
                if a == 0 { child } else { Some(ch[a - 1] as int) },
            ) by {
                if a > 0 {
                    assert(ch[a] == rest[a - 1]);
                    if a > 1 {
                        assert(ch[a - 1] == rest[a - 2]);
                    } else {
                        assert(ch[0] == i);
                    }
                }
            }
        }
    }

    /// Expressions and roots depend only on parents and chunks, which the
    /// nodes kept and all their ancestors kept.
    proof fn lemma_frame_kept(&self, old: &Self, removed: Seq<usize>, i: int)
        requires
            0 <= i < old.len(),
            old.len() == self.len(),
            !removed.contains(i as usize),
            forall|j: int|
                0 <= j < old.len() && !removed.contains(j as usize) ==> #[trigger] self.parent_of(j)
                    == old.parent_of(j) && self.suffix_of(j) == old.suffix_of(j),
            forall|j: int|
                0 <= j < old.len() && !removed.contains(j as usize) && (#[trigger] old.parent_of(j))
                    is Some ==> !removed.contains(old.parent_of(j)->0),
        ensures
            self.expr_of(i) == old.expr_of(i),
            self.root_of(i) == old.root_of(i),
        decreases i,
    {
        assert(self.parent_of(i) == old.parent_of(i));
        if let Some(p) = old.parent_of(i) {
            if p < i {
                self.lemma_frame_kept(old, removed, p as int);
            }
        }
    }

    /// Whether the node `i` can go now.
    fn can_go(&self, i: usize, held: &Vec<bool>) -> (b: bool)
        requires
            self.wf(),
            i < self.len(),
            held@.len() == self.len(),
        ensures
            b == (self.parent_of(i as int) is Some && !held@[i as int] && self.childs_of(i as int).len()
                == 0),
    {
        self.nodes[i].parent.is_some() && !held[i] && named_slots_is_empty(&self.nodes[i].childs)
    }

    /// Remove `index` from its tree if it has no child and nothing outside
    /// the tree holds it, then each ancestor in turn that is left with no
    /// child and that nothing holds; a root is never removed. `held` says,
    /// for each node, whether something outside the tree still holds it.
    /// The weight of `index`, if it was removed. A removed node is left in
    /// its slot as a bare root of its own.
    #[verifier::rlimit(100)]
    #[verifier::spinoff_prover]
    pub fn clean(&mut self, index: usize, held: &Vec<bool>) -> (r: Option<Weight>)
        requires
            old(self).wf(),
            index < old(self).len(),
            held@.len() == old(self).len(),
        ensures
            final(self).wf(),
            final(self).len() == old(self).len(),
            ({
                let chain = old(self).clean_chain(index as int, held@, None);
                &&& r == (if chain.len() > 0 {
                    old(self).weight_of(index as int)
                } else {
                    None
                })
                &&& forall|j: int|
                    0 <= j < chain.len() ==> final(self).parent_of(#[trigger] chain[j] as int) is None
                        && final(self).childs_of(chain[j] as int).len() == 0
                        && final(self).weight_of(chain[j] as int) is None
                &&& forall|i: int|
                    0 <= i < old(self).len() && !chain.contains(i as usize) ==> {
                        &&& #[trigger] final(self).parent_of(i) == old(self).parent_of(i)
                        &&& final(self).weight_of(i) == old(self).weight_of(i)
                        &&& final(self).expr_of(i) == old(self).expr_of(i)
                        &&& final(self).root_of(i) == old(self).root_of(i)
                    }
                &&& forall|i: int|
                    0 <= i < old(self).len()
                        ==> #[trigger] final(self).suffix_of(i) == old(self).suffix_of(i)
                &&& chain.len() > 0 ==> {
                    let last = chain.last() as int;
                    let q = old(self).parent_of(last)->0 as int;
                    let pos = slot_position(old(self).childs_of(q), old(self).suffix_of(last));
                    &&& pos is Some
                    &&& final(self).childs_of(q) == swap_removed(old(self).childs_of(q), pos->0)
                }
                &&& forall|i: int|
                    0 <= i < old(self).len() && !chain.contains(i as usize) && !(chain.len() > 0
                        && old(self).parent_of(chain.last() as int) == Some(i as usize))
                        ==> #[trigger] final(self).childs_of(i) == old(self).childs_of(i)
            }),
    {
        let ghost o = *old(self);
        let ghost chain = o.clean_chain(index as int, held@, None);
        proof {
            o.lemma_chain_shape(index as int, held@, None);
        }
        let mut current = index;
        let ghost mut k: int = 0;
        let ghost mut prev: Option<int> = None;
        let mut result: Option<Weight> = None;
        let mut first = true;
        while self.can_go(current, held)
            invariant
                self.wf(),
                o.wf(),
                held@.len() == o.len(),
                self.len() == o.len(),
                current < self.len(),
                chain == o.clean_chain(index as int, held@, None),
                0 <= k <= chain.len(),
                first == (k == 0),
                k == 0 ==> current == index && prev is None,
                k > 0 ==> prev == Some(chain[k - 1] as int) && o.parent_of(chain[k - 1] as int)
                    == Some(current),
                o.clean_chain(current as int, held@, prev) == chain.skip(k),
                result == (if k > 0 {
                    o.weight_of(index as int)
                } else {
                    None
                }),
                forall|a: int, b: int| 0 <= a < b < chain.len() ==> chain[a] > chain[b],
                forall|a: int| 0 <= a < k ==> chain[a] > current,
                forall|i: int| 0 <= i < o.len() ==> #[trigger] self.suffix_of(i) == o.suffix_of(i),
                forall|j: int|
                    0 <= j < k ==> self.parent_of(#[trigger] chain[j] as int) is None
                        && self.childs_of(chain[j] as int).len() == 0 && self.weight_of(
                        chain[j] as int,
                    ) is None,
                k > 0 ==> {
                    let pos = slot_position(o.childs_of(current as int), o.suffix_of(chain[k - 1] as int));
                    &&& pos is Some
                    &&& self.childs_of(current as int) == swap_removed(o.childs_of(current as int), pos->0)
                },
                forall|i: int|
                    0 <= i < o.len() && !chain.take(k).contains(i as usize) ==> #[trigger] self.parent_of(i)
                        == o.parent_of(i) && self.weight_of(i) == o.weight_of(i),
                forall|i: int|
                    0 <= i < o.len() && !chain.take(k).contains(i as usize) && !(k > 0 && i
                        == current) ==> #[trigger] self.childs_of(i) == o.childs_of(i),
            decreases current,
        {
            let ghost s0 = *self;
            proof {
                o.lemma_chain_shape(index as int, held@, None);
                assert(!chain.take(k).contains(current as usize)) by {
                    if chain.take(k).contains(current as usize) {
                        let a = choose|a: int| 0 <= a < k && #[trigger] chain.take(k)[a] == current as usize;
                        assert(chain[a] > current);
                    }
                }
                assert(o.node_wf(current as int));
                if k > 0 {
                    let c = chain[k - 1] as int;
                    assert(o.node_wf(c));
                    lemma_first_slot(o.childs_of(current as int), o.suffix_of(c), 0);
                }
                assert(o.removable(current as int, held@, prev));
                let p0 = o.parent_of(current as int)->0 as int;
                assert(o.clean_chain(current as int, held@, prev) == seq![current as usize]
                    + o.clean_chain(p0, held@, Some(current as int)));
                assert(chain.skip(k)[0] == chain[k]);
                assert(chain.skip(k + 1) =~= chain.skip(k).drop_first());
            }
            let p = match self.nodes[current].parent {
                Some(p) => p,
                None => current,
            };
            let w = self.detach(current);
            if first {
                result = w;
                first = false;
            }
            proof {
                assert(chain[k] == current);
                assert(p < current);
                assert(!chain.take(k).contains(p as usize)) by {
                    if chain.take(k).contains(p as usize) {
                        let a = choose|a: int| 0 <= a < k && #[trigger] chain.take(k)[a] == p as usize;
                        assert(chain[a] > current);
                    }
                }
                assert forall|x: usize| #[trigger] chain.take(k + 1).contains(x) <==> (chain.take(
                    k,
                ).contains(x) || x == chain[k]) by {
                    if chain.take(k + 1).contains(x) {
                        let a = choose|a: int| 0 <= a < k + 1 && #[trigger] chain.take(k + 1)[a] == x;
                        if a < k {
                            assert(chain.take(k)[a] == x);
                        }
                    }
                    if chain.take(k).contains(x) {
                        let a = choose|a: int| 0 <= a < k && #[trigger] chain.take(k)[a] == x;
                        assert(chain.take(k + 1)[a] == x);
                    }
                    if x == chain[k] {
                        assert(chain.take(k + 1)[k] == x);
                    }
                }
                assert forall|j: int| 0 <= j < k + 1 implies self.parent_of(#[trigger] chain[j] as int)
                    is None && self.childs_of(chain[j] as int).len() == 0 && self.weight_of(
                    chain[j] as int,
                ) is None by {
                    if j < k {
                        assert(chain[j] > current);
                    }
                }
                k = k + 1;
                prev = Some(current as int);
            }
            current = p;
        }
        proof {
            o.lemma_chain_shape(index as int, held@, None);
            assert(!chain.take(k).contains(current as usize)) by {
                if chain.take(k).contains(current as usize) {
                    let a = choose|a: int| 0 <= a < k && #[trigger] chain.take(k)[a] == current as usize;
                    assert(chain[a] > current);
                }
            }
            if o.removable(current as int, held@, prev) {
                if k > 0 {
                    let c = chain[k - 1] as int;
                    assert(o.node_wf(c));
                    lemma_first_slot(o.childs_of(current as int), o.suffix_of(c), 0);
                }
                assert(false);
            }
            assert(chain.skip(k).len() == 0);
            assert(chain.take(k) =~= chain);
            assert forall|x: int|
                0 <= x < o.len() && !chain.contains(x as usize) && (#[trigger] o.parent_of(x))
                    is Some implies !chain.contains(o.parent_of(x)->0) by {
                let q = o.parent_of(x)->0;
                if chain.contains(q) {
                    let a = choose|a: int| 0 <= a < chain.len() && #[trigger] chain[a] == q;
                    assert(o.removable(
                        chain[a] as int,
                        held@,
                        if a == 0 { None } else { Some(chain[a - 1] as int) },
                    ));
                    assert(o.node_wf(x));
                    lemma_first_slot(o.childs_of(q as int), o.suffix_of(x), 0);
                    if a > 0 {
                        assert(chain.contains(chain[a - 1]));
                    }
                }
            }
            assert forall|i: int| 0 <= i < o.len() && !chain.contains(i as usize) implies {
                &&& #[trigger] self.parent_of(i) == o.parent_of(i)
                &&& self.weight_of(i) == o.weight_of(i)
                &&& self.expr_of(i) == o.expr_of(i)
                &&& self.root_of(i) == o.root_of(i)
            } by {
                self.lemma_frame_kept(&o, chain, i);
            }
        }
        result
    }

    /// An arena without nodes.
    pub fn new() -> (t: Self)
        ensures
            t.wf(),
            t.len() == 0,
    {
        ArcTree { nodes: Vec::new(), weights: Vec::new() }
    }

    /// A new root, holding `expr` as its chunk and `weight` as its weight.
    pub fn insert_with(&mut self, expr: &str, weight: Weight) -> (r: usize)
        requires
            old(self).wf(),
        ensures
            final(self).wf(),
            r == old(self).len(),
            final(self).len() == old(self).len() + 1,
            final(self).parent_of(r as int) is None,
            final(self).suffix_of(r as int) == expr@,
            final(self).childs_of(r as int).len() == 0,
            final(self).weight_of(r as int) == Some(weight),
            final(self).keeps(old(self)),
            forall|i: int| 0 <= i < old(self).len() ==> #[trigger] final(self).weight_of(i) == old(self).weight_of(i)
                && final(self).childs_of(i) == old(self).childs_of(i),
    {
        let r = self.nodes.len();
        self.nodes.push(ResNode { parent: None, suffix: expr.to_owned(), childs: named_slots_new() });
        self.weights.push(Some(weight));
        proof {
            assert(self.nodes@.len() == self.nodes.len());
            assert forall|i: int| 0 <= i < self.len() implies #[trigger] self.node_wf(i) by {
                if i < r {
                    assert(old(self).node_wf(i));
                    assert(self.childs_of(i) == old(self).childs_of(i));
                    if let Some(p) = self.parent_of(i) {
                        assert(self.childs_of(p as int) == old(self).childs_of(p as int));
                    }
                }
            }
            self.lemma_keeps(old(self));
        }
        r
    }

    /// Every node of `old` is in `self`, in the same place, with the same
    /// parent, chunk and weight, and so with the same expression and root.
    pub open spec fn keeps(&self, old: &Self) -> bool {
        &&& old.len() <= self.len()
        &&& forall|i: int|
            0 <= i < old.len() ==> {
                &&& #[trigger] self.parent_of(i) == old.parent_of(i)
                &&& self.suffix_of(i) == old.suffix_of(i)
                &&& self.expr_of(i) == old.expr_of(i)
                &&& self.root_of(i) == old.root_of(i)
            }
    }

    /// Expressions and roots depend only on parents and chunks.
    proof fn lemma_frame(&self, old: &Self, i: int)
        requires
            0 <= i < old.len() <= self.len(),
            forall|j: int|
                0 <= j <= i ==> #[trigger] self.parent_of(j) == old.parent_of(j)
                    && self.suffix_of(j) == old.suffix_of(j),
        ensures
            self.expr_of(i) == old.expr_of(i),
            self.root_of(i) == old.root_of(i),
        decreases i,
    {
        assert(self.parent_of(i) == old.parent_of(i));
        if let Some(p) = self.parent_of(i) {
            if p < i {
                self.lemma_frame(old, p as int);
            }
        }
    }

    proof fn lemma_keeps(&self, old: &Self)
        requires
            old.len() <= self.len(),
            forall|j: int|
                0 <= j < old.len() ==> #[trigger] self.parent_of(j) == old.parent_of(j)
                    && self.suffix_of(j) == old.suffix_of(j),
        ensures
            self.keeps(old),
    {
        assert forall|i: int| 0 <= i < old.len() implies {
            &&& #[trigger] self.parent_of(i) == old.parent_of(i)
            &&& self.suffix_of(i) == old.suffix_of(i)
            &&& self.expr_of(i) == old.expr_of(i)
            &&& self.root_of(i) == old.root_of(i)
        } by {
            self.lemma_frame(old, i);
        }
    }
}

/// A resource tree: an arena of nodes and the root that `new` made.
pub struct ResourceTree<Weight> {
    container: ArcTree<Weight>,
    root: usize,
}

impl<Weight> ResourceTree<Weight> {
    /// The arena of the tree.
    pub closed spec fn tree(&self) -> ArcTree<Weight> {
        self.container
    }

    /// The slot of the root.
    pub closed spec fn root_slot(&self) -> usize {
        self.root
    }

    /// The arena is well formed and the root is a node without a parent.
    pub closed spec fn wf(&self) -> bool {
        &&& self.container.wf()
        &&& self.root < self.container.len()
        &&& self.container.parent_of(self.root as int) is None
    }

    /// A tree with a root of the empty expression, weighted with the
    /// default weight.
    pub fn new() -> (t: Self) where Weight: Default
        ensures
            t.wf(),
            t.tree().len() == 1,
            t.root_slot() == 0,
            t.tree().suffix_of(0) == Seq::<char>::empty(),
            t.tree().expr_of(0) == Seq::<char>::empty(),
            t.tree().childs_of(0).len() == 0,
            t.tree().weight_of(0) is Some,
    {
        let mut container = ArcTree::new();
        proof {
            reveal_strlit("");
        }
        let root = container.insert_with("", Weight::default());
        ResourceTree { container, root }
    }

    /// The arena of the tree.
    pub fn container(&self) -> (c: &ArcTree<Weight>)
        ensures
            *c == self.tree(),
    {
        &self.container
    }

    /// The slot of the root.
    pub fn root(&self) -> (r: usize)
        ensures
            r == self.root_slot(),
    {
        self.root
    }

    /// A new root holding `expr`, with the default weight.
    pub fn insert(&mut self, expr: &str) -> (r: usize) where Weight: Default
        requires
            old(self).wf(),
        ensures
            final(self).wf(),
            final(self).root_slot() == old(self).root_slot(),
            r == old(self).tree().len(),
            final(self).tree().len() == old(self).tree().len() + 1,
            final(self).tree().parent_of(r as int) is None,
            final(self).tree().suffix_of(r as int) == expr@,
            final(self).tree().expr_of(r as int) == Seq::<char>::empty(),
            final(self).tree().childs_of(r as int).len() == 0,
            final(self).tree().weight_of(r as int) is Some,
            final(self).tree().keeps(&old(self).tree()),
            forall|i: int| 0 <= i < old(self).tree().len() ==> #[trigger] final(self).tree().weight_of(i)
                == old(self).tree().weight_of(i) && final(self).tree().childs_of(i) == old(self).tree().childs_of(i),
    {
        self.insert_with(expr, Weight::default())
    }

    /// A new root holding `expr`, weighted with `weight`.
    pub fn insert_with(&mut self, expr: &str, weight: Weight) -> (r: usize)
        requires
            old(self).wf(),
        ensures
            final(self).wf(),
            final(self).root_slot() == old(self).root_slot(),
            r == old(self).tree().len(),
            final(self).tree().len() == old(self).tree().len() + 1,
            final(self).tree().parent_of(r as int) is None,
            final(self).tree().suffix_of(r as int) == expr@,
            final(self).tree().expr_of(r as int) == Seq::<char>::empty(),
            final(self).tree().childs_of(r as int).len() == 0,
            final(self).tree().weight_of(r as int) == Some(weight),
            final(self).tree().keeps(&old(self).tree()),
            forall|i: int| 0 <= i < old(self).tree().len() ==> #[trigger] final(self).tree().weight_of(i)
                == old(self).tree().weight_of(i) && final(self).tree().childs_of(i) == old(self).tree().childs_of(i),
    {
        self.container.insert_with(expr, weight)
    }

    /// The node whose expression is that of `prefix` followed by `suffix`, in
    /// the tree of `prefix`, if there is one.
    pub fn get(&self, prefix: usize, suffix: &str) -> (r: Option<usize>)
        requires
            self.wf(),
            prefix < self.tree().len(),
            !self.tree().root_step_panics(prefix as int, suffix@),
        ensures
            r == self.tree().lookup(prefix as int, suffix@),
    {
        self.container.get(prefix, suffix)
    }

    /// The node whose expression is that of `prefix` followed by `suffix`,
    /// made if need be, with the default weight if it has none.
    pub fn get_or_insert(&mut self, prefix: usize, suffix: &str) -> (r: usize) where
        Weight: Default,

        requires
            old(self).wf(),
            prefix < old(self).tree().len(),
            !old(self).tree().root_step_panics(prefix as int, suffix@),
        ensures
            final(self).wf(),
            final(self).root_slot() == old(self).root_slot(),
            final(self).tree().keeps(&old(self).tree()),
            final(self).tree().spells(
                prefix as int,
                r as int,
                old(self).tree().expr_of(prefix as int) + suffix@,
            ),
            old(self).tree().lookup(prefix as int, suffix@) matches Some(n) ==> r == n
                && final(self).tree().len() == old(self).tree().len(),
            final(self).tree().weight_of(r as int) is Some,
            r < old(self).tree().len() && old(self).tree().weight_of(r as int) is Some
                ==> final(self).tree().weight_of(r as int) == old(self).tree().weight_of(r as int),
            forall|i: int|
                0 <= i < final(self).tree().len() && i != r ==> #[trigger] final(self).tree().weight_of(i)
                    == (if i < old(self).tree().len() {
                    old(self).tree().weight_of(i)
                } else {
                    None
                }),
            forall|i: int|
                old(self).tree().len() <= i < final(self).tree().len() ==> {
                    &&& #[trigger] final(self).tree().root_of(i) == old(self).tree().root_of(prefix as int)
                    &&& is_prefix(
                        final(self).tree().expr_of(i),
                        old(self).tree().expr_of(prefix as int) + suffix@,
                    )
                },
    {
        self.get_or_insert_with(prefix, suffix, Weight::default())
    }

    /// The node whose expression is that of `prefix` followed by `suffix`,
    /// made if need be, weighted with `weight` if it has no weight yet.
    pub fn get_or_insert_with(&mut self, prefix: usize, suffix: &str, weight: Weight) -> (r: usize)
        requires
            old(self).wf(),
            prefix < old(self).tree().len(),
            !old(self).tree().root_step_panics(prefix as int, suffix@),
        ensures
            final(self).wf(),
            final(self).root_slot() == old(self).root_slot(),
            final(self).tree().keeps(&old(self).tree()),
            final(self).tree().spells(
                prefix as int,
                r as int,
                old(self).tree().expr_of(prefix as int) + suffix@,
            ),
            old(self).tree().lookup(prefix as int, suffix@) matches Some(n) ==> r == n
                && final(self).tree().len() == old(self).tree().len(),
            old(self).tree().lookup(prefix as int, suffix@) is None
                ==> r >= old(self).tree().len(),
            final(self).tree().weight_of(r as int) == (if r < old(self).tree().len()
                && old(self).tree().weight_of(r as int) is Some {
                old(self).tree().weight_of(r as int)
            } else {
                Some(weight)
            }),
            forall|i: int|
                0 <= i < final(self).tree().len() && i != r ==> #[trigger] final(self).tree().weight_of(i)
                    == (if i < old(self).tree().len() {
                    old(self).tree().weight_of(i)
                } else {
                    None
                }),
            forall|i: int|
                old(self).tree().len() <= i < final(self).tree().len() ==> {
                    &&& #[trigger] final(self).tree().root_of(i) == old(self).tree().root_of(prefix as int)
                    &&& is_prefix(
                        final(self).tree().expr_of(i),
                        old(self).tree().expr_of(prefix as int) + suffix@,
                    )
                },
    {
        let r = self.container.get_or_insert_with(prefix, suffix, weight);
        proof {
            assert(self.container.parent_of(self.root as int) == old(self).container.parent_of(
                self.root as int,
            ));
        }
        r
    }

    /// A depth-first walk of the weighted nodes under the root.
    pub fn visit(&self) -> (v: Visit)
        requires
            self.wf(),
        ensures
            v.fits(&self.tree()),
            v.remaining(&self.tree()) == self.tree().preorder(self.root_slot() as int),
    {
        self.container.visit_from(self.root)
    }

    /// A depth-first walk of the weighted nodes under `from`.
    pub fn visit_from(&self, from: usize) -> (v: Visit)
        requires
            self.wf(),
            from < self.tree().len(),
        ensures
            v.fits(&self.tree()),
            v.remaining(&self.tree()) == self.tree().preorder(from as int),
    {
        self.container.visit_from(from)
    }

    /// The weighted nodes along `path` below `from`, deepest first, then
    /// `from`.
    pub fn reverse_path(&self, from: usize, path: &str) -> (w: ReversePath)
        requires
            self.wf(),
            from < self.tree().len(),
        ensures
            w.pending() == seq![from] + self.tree().path_nodes(from as int, path@),
    {
        self.container.reverse_path(from, path)
    }

    /// The key expression of a node.
    pub fn expr(&self, index: usize) -> (e: String)
        requires
            self.wf(),
            index < self.tree().len(),
        ensures
            e@ == self.tree().expr_of(index as int),
    {
        self.container.expr(index)
    }

    /// The weight of a node that has one.
    pub fn weight(&self, index: usize) -> (w: &Weight)
        requires
            self.wf(),
            index < self.tree().len(),
            self.tree().weight_of(index as int) is Some,
        ensures
            Some(*w) == self.tree().weight_of(index as int),
    {
        self.container.weight(index)
    }

    /// The weight of a node that has one, to be changed in place.
    pub fn weight_mut(&mut self, index: usize) -> (w: &mut Weight)
        requires
            old(self).wf(),
            index < old(self).tree().len(),
            old(self).tree().weight_of(index as int) is Some,
        ensures
            Some(*w) == old(self).tree().weight_of(index as int),
            final(self).wf(),
            final(self).root_slot() == old(self).root_slot(),
            final(self).tree().same_nodes(&old(self).tree()),
            final(self).tree().len() == old(self).tree().len(),
            final(self).tree().weight_of(index as int) == Some(*final(w)),
            forall|i: int|
                0 <= i < old(self).tree().len() && i != index ==> #[trigger] final(self).tree().weight_of(i)
                    == old(self).tree().weight_of(i),
    {
        self.container.weight_mut(index)
    }

    /// Remove `index`, and then the ancestors it leaves with no child, as
    /// long as nothing outside the tree holds them; the root, having no
    /// parent, always stays. The weight of `index`, if it was removed.
    pub fn clean(&mut self, index: usize, held: &Vec<bool>) -> (r: Option<Weight>)
        requires
            old(self).wf(),
            index < old(self).tree().len(),
            held@.len() == old(self).tree().len(),
        ensures
            final(self).wf(),
            final(self).root_slot() == old(self).root_slot(),
            final(self).tree().len() == old(self).tree().len(),
            r == (if old(self).tree().clean_chain(index as int, held@, None).len() > 0 {
                old(self).tree().weight_of(index as int)
            } else {
                None
            }),
            ({
                let o = old(self).tree();
                let f = final(self).tree();
                let chain = o.clean_chain(index as int, held@, None);
                &&& forall|j: int|
                    0 <= j < chain.len() ==> f.parent_of(#[trigger] chain[j] as int) is None
                        && f.childs_of(chain[j] as int).len() == 0
                        && f.weight_of(chain[j] as int) is None
                &&& forall|i: int|
                    0 <= i < o.len() && !chain.contains(i as usize) ==> {
                        &&& #[trigger] f.parent_of(i) == o.parent_of(i)
                        &&& f.weight_of(i) == o.weight_of(i)
                        &&& f.expr_of(i) == o.expr_of(i)
                        &&& f.root_of(i) == o.root_of(i)
                    }
                &&& forall|i: int| 0 <= i < o.len() ==> #[trigger] f.suffix_of(i) == o.suffix_of(i)
                &&& chain.len() > 0 ==> {
                    let last = chain.last() as int;
                    let q = o.parent_of(last)->0 as int;
                    let pos = slot_position(o.childs_of(q), o.suffix_of(last));
                    &&& pos is Some
                    &&& f.childs_of(q) == swap_removed(o.childs_of(q), pos->0)
                }
                &&& forall|i: int|
                    0 <= i < o.len() && !chain.contains(i as usize) && !(chain.len() > 0
                        && o.parent_of(chain.last() as int) == Some(i as usize))
                        ==> #[trigger] f.childs_of(i) == o.childs_of(i)
            }),
    {
        let r = self.container.clean(index, held);
        proof {
            let chain = old(self).tree().clean_chain(index as int, held@, None);
            if chain.contains(self.root as usize) {
                let a = choose|a: int| 0 <= a < chain.len() && #[trigger] chain[a] == self.root as usize;
                old(self).tree().lemma_chain_shape(index as int, held@, None);
                assert(old(self).tree().removable(
                    chain[a] as int,
                    held@,
                    if a == 0 { None } else { Some(chain[a - 1] as int) },
                ));
            }
        }
        r
    }
}

/// A depth-first walk of a subtree: a stack of nodes, each with the walker
/// over its children once it has been handed out.
pub struct Visit {
    stack: Vec<(usize, Option<VecMapWalker<String, usize>>)>,
}

/// What is left to hand out for one entry of a walk's stack.
pub open spec fn entry_remaining<Weight>(
    t: &ArcTree<Weight>,
    entry: (usize, Option<VecMapWalker<String, usize>>),
) -> Seq<usize> {
    match entry.1 {
        None => t.preorder(entry.0 as int),
        Some(w) => t.preorder_from_child(entry.0 as int, w.position() as int),
    }
}

/// What is left to hand out for a stack of entries, the top one first.
pub open spec fn stack_remaining<Weight>(
    t: &ArcTree<Weight>,
    stack: Seq<(usize, Option<VecMapWalker<String, usize>>)>,
) -> Seq<usize>
    decreases stack.len(),
{
    if stack.len() == 0 {
        Seq::empty()
    } else {
        entry_remaining(t, stack.last()) + stack_remaining(t, stack.drop_last())
    }
}

/// How many steps are left for one entry of a walk's stack.
pub open spec fn entry_work<Weight>(
    t: &ArcTree<Weight>,
    entry: (usize, Option<VecMapWalker<String, usize>>),
) -> nat {
    match entry.1 {
        None => t.visit_work(entry.0 as int),
        Some(w) => t.visit_work_from_child(entry.0 as int, w.position() as int),
    }
}

/// How many steps are left for a stack of entries.
pub open spec fn stack_work<Weight>(
    t: &ArcTree<Weight>,
    stack: Seq<(usize, Option<VecMapWalker<String, usize>>)>,
) -> nat
    decreases stack.len(),
{
    if stack.len() == 0 {
        0
    } else {
        entry_work(t, stack.last()) + stack_work(t, stack.drop_last())
    }
}

/// Pushing an entry puts what is left of it, and its steps, on top.
proof fn lemma_stack_push<Weight>(
    t: &ArcTree<Weight>,
    stack: Seq<(usize, Option<VecMapWalker<String, usize>>)>,
    entry: (usize, Option<VecMapWalker<String, usize>>),
)
    ensures
        stack_remaining(t, stack.push(entry)) == entry_remaining(t, entry) + stack_remaining(
            t,
            stack,
        ),
        stack_work(t, stack.push(entry)) == entry_work(t, entry) + stack_work(t, stack),
{
    assert(stack.push(entry).drop_last() =~= stack);
}

impl Visit {
    /// The weighted nodes the walk still has to hand out, in order.
    pub closed spec fn remaining<Weight>(&self, t: &ArcTree<Weight>) -> Seq<usize> {
        stack_remaining(t, self.stack@)
    }

    /// How many steps the walk still has to take.
    pub closed spec fn work<Weight>(&self, t: &ArcTree<Weight>) -> nat {
        stack_work(t, self.stack@)
    }

    /// The walk is over nodes of `t`, each walker within its node's children.
    pub closed spec fn fits<Weight>(&self, t: &ArcTree<Weight>) -> bool {
        forall|j: int|
            0 <= j < self.stack@.len() ==> {
                let e = #[trigger] self.stack@[j];
                &&& e.0 < t.len()
                &&& (e.1 matches Some(w) ==> w.position() <= t.childs_of(e.0 as int).len())
            }
    }

    /// The next weighted node of the walk, if any.
    pub fn walk_next<Weight>(&mut self, context: &ArcTree<Weight>) -> (r: Option<usize>)
        requires
            context.wf(),
            old(self).fits(context),
        ensures
            final(self).fits(context),
            old(self).remaining(context).len() > 0 ==> r == Some(old(self).remaining(context)[0])
                && final(self).remaining(context) == old(self).remaining(context).drop_first(),
            old(self).remaining(context).len() == 0 ==> r is None
                && final(self).remaining(context) == old(self).remaining(context),
    {
        loop
            invariant
                context.wf(),
                self.fits(context),
                self.remaining(context) == old(self).remaining(context),
            decreases self.work(context),
        {
            let ghost st = self.stack@;
            match self.stack.pop() {
                None => {
                    proof {
                        assert(st.len() == 0);
                    }
                    return None;
                },
                Some((node, Some(mut w))) => {
                    proof {
                        assert(st.last() == (node, Some(w)));
                        assert(self.stack@ == st.drop_last());
                        context.lemma_child_bound(node as int);
                    }
                    let ghost k = w.position() as int;
                    match w.walk_next(&context.nodes[node].childs) {
                        Some((_, child)) => {
                            let c = *child;
                            proof {
                                context.lemma_walk_step(node as int, k);
                            }
                            self.stack.push((node, Some(w)));
                            self.stack.push((c, None));
                            proof {
                                let s0 = st.drop_last();
                                let s1 = s0.push((node, Some(w)));
                                let s2 = s1.push((c, None));
                                assert(self.stack@ == s2);
                                lemma_stack_push(context, s0, (node, Some(w)));
                                lemma_stack_push(context, s1, (c, None));
                                lemma_stack_push(context, s0, st.last());
                                assert(s0.push(st.last()) =~= st);
                                assert forall|j: int| 0 <= j < self.stack@.len() implies {
                                    let e = #[trigger] self.stack@[j];
                                    &&& e.0 < context.len()
                                    &&& (e.1 matches Some(w) ==> w.position()
                                        <= context.childs_of(e.0 as int).len())
                                } by {
                                    if j < st.len() - 1 {
                                        assert(self.stack@[j] == st[j]);
                                    }
                                }
                                assert(stack_remaining(context, s2) =~= stack_remaining(
                                    context,
                                    st,
                                ));
                            }
                        },
                        None => {
                            proof {
                                let s0 = st.drop_last();
                                lemma_stack_push(context, s0, st.last());
                                assert(s0.push(st.last()) =~= st);
                                assert(context.preorder_from_child(node as int, k)
                                    =~= Seq::<usize>::empty());
                                assert(stack_remaining(context, st) =~= stack_remaining(
                                    context,
                                    st.drop_last(),
                                ));
                                assert forall|j: int| 0 <= j < self.stack@.len() implies {
                                    let e = #[trigger] self.stack@[j];
                                    &&& e.0 < context.len()
                                    &&& (e.1 matches Some(w) ==> w.position()
                                        <= context.childs_of(e.0 as int).len())
                                } by {
                                    assert(self.stack@[j] == st[j]);
                                }
                            }
                        },
                    }
                },
                Some((node, None)) => {
                    proof {
                        assert(st.last() == (node, None::<VecMapWalker<String, usize>>));
                        assert(self.stack@ == st.drop_last());
                    }
                    let w = VecMapWalker::new();
                    self.stack.push((node, Some(w)));
                    proof {
                        let s0 = st.drop_last();
                        let s1 = s0.push((node, Some(w)));
                        assert(self.stack@ == s1);
                        lemma_stack_push(context, s0, (node, Some(w)));
                        lemma_stack_push(context, s0, st.last());
                        assert(s0.push(st.last()) =~= st);
                        assert forall|j: int| 0 <= j < self.stack@.len() implies {
                            let e = #[trigger] self.stack@[j];
                            &&& e.0 < context.len()
                            &&& (e.1 matches Some(w) ==> w.position()
                                <= context.childs_of(e.0 as int).len())
                        } by {
                            if j < st.len() - 1 {
                                assert(self.stack@[j] == st[j]);
                            }
                        }
                    }
                    if context.weights[node].is_some() {
                        proof {
                            assert(stack_remaining(context, self.stack@) =~= stack_remaining(
                                context,
                                st,
                            ).drop_first());
                        }
                        return Some(node);
                    }
                    proof {
                        assert(stack_remaining(context, self.stack@) =~= stack_remaining(
                            context,
                            st,
                        ));
                    }
                },
            }
        }
    }
}

/// The weighted nodes along a path, handed out from the deepest.
pub struct ReversePath {
    stack: Vec<usize>,
}

impl ReversePath {
    /// What is still to be handed out; the last first.
    pub closed spec fn pending(&self) -> Seq<usize> {
        self.stack@
    }

    /// The deepest node not yet handed out, if any.
    pub fn walk_next<Weight>(&mut self, _context: &ArcTree<Weight>) -> (r: Option<usize>)
        ensures
            old(self).pending().len() > 0 ==> r == Some(old(self).pending().last())
                && final(self).pending() == old(self).pending().drop_last(),
            old(self).pending().len() == 0 ==> r is None
                && final(self).pending() == old(self).pending(),
    {
        self.stack.pop()
    }
}

} // verus!
