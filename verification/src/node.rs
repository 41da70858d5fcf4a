//! A single trie vertex: the byte label of the edge that led to it, and the
//! children it owns, at most one per byte value.

use vstd::prelude::*;

verus! {

/// One vertex of the trie. `key` is the byte on the incoming edge (the root
/// carries the sentinel 0, which is never matched against input). The node
/// owns its children outright; no child label occurs twice.
#[derive(Debug)]
pub struct Node {
    pub key: u8,
    pub children: Vec<Node>,
}

/// No two nodes of `s` carry the same label.
pub open spec fn keys_unique(s: Seq<Node>) -> bool {
    forall|i: int, j: int| 0 <= i < j < s.len() ==> s[i].key != s[j].key
}

/// Some node of `s` carries the label `b`.
pub open spec fn has_key(s: Seq<Node>, b: u8) -> bool {
    exists|i: int| 0 <= i < s.len() && s[i].key == b
}

/// The position of the node of `s` labelled `b`.
pub open spec fn key_index(s: Seq<Node>, b: u8) -> int
    recommends
        has_key(s, b),
{
    choose|i: int| 0 <= i < s.len() && s[i].key == b
}

/// The node of `s` labelled `b`.
pub open spec fn child_with(s: Seq<Node>, b: u8) -> Node
    recommends
        has_key(s, b),
{
    s[key_index(s, b)]
}

/// The number of vertices in all subtrees rooted at the nodes of `s`.
pub open spec fn seq_size(s: Seq<Node>) -> nat
    decreases s,
{
    if s.len() == 0 {
        0
    } else {
        s[s.len() - 1].size() + seq_size(s.subrange(0, s.len() - 1))
    }
}

/// Under unique labels, looking up `b` finds exactly the occupant of any
/// position that carries `b`.
pub proof fn lemma_key_index_is(s: Seq<Node>, b: u8, i: int)
    requires
        keys_unique(s),
        0 <= i < s.len(),
        s[i].key == b,
    ensures
        has_key(s, b),
        key_index(s, b) == i,
        child_with(s, b) == s[i],
{
    assert(has_key(s, b));
    let j = key_index(s, b);
    if j < i {
        assert(s[j].key != s[i].key);
    } else if j > i {
        assert(s[i].key != s[j].key);
    }
}

/// Appending a node preserves the subtree-size sum additively.
pub proof fn lemma_seq_size_push(s: Seq<Node>, c: Node)
    ensures
        seq_size(s.push(c)) == seq_size(s) + c.size(),
{
    let t = s.push(c);
    assert(t[t.len() - 1] == c);
    assert(t.subrange(0, t.len() - 1) =~= s);
}

/// Removing the node at position `k` subtracts exactly its subtree size.
pub proof fn lemma_seq_size_remove(s: Seq<Node>, k: int)
    requires
        0 <= k < s.len(),
    ensures
        seq_size(s.remove(k)) + s[k].size() == seq_size(s),
    decreases s.len(),
{
    let t = s.remove(k);
    s.remove_ensures(k);
    if k == s.len() - 1 {
        assert(t =~= s.subrange(0, s.len() - 1));
    } else {
        let s1 = s.subrange(0, s.len() - 1);
        assert(t[t.len() - 1] == s[s.len() - 1]);
        assert(t.subrange(0, t.len() - 1) =~= s1.remove(k));
        lemma_seq_size_remove(s1, k);
    }
}

/// Replacing the node at position `k` adjusts the subtree-size sum by the
/// difference between the new and the old occupant.
pub proof fn lemma_seq_size_update(s: Seq<Node>, k: int, c: Node)
    requires
        0 <= k < s.len(),
    ensures
        seq_size(s.update(k, c)) + s[k].size() == seq_size(s) + c.size(),
    decreases s.len(),
{
    let t = s.update(k, c);
    if k == s.len() - 1 {
        assert(t[t.len() - 1] == c);
        assert(t.subrange(0, t.len() - 1) =~= s.subrange(0, s.len() - 1));
    } else {
        let s1 = s.subrange(0, s.len() - 1);
        assert(t[t.len() - 1] == s[s.len() - 1]);
        assert(t.subrange(0, t.len() - 1) =~= s1.update(k, c));
        lemma_seq_size_update(s1, k, c);
    }
}

/// Appending a node with a fresh label: how every label then resolves.
pub proof fn lemma_lookup_push(s: Seq<Node>, c: Node)
    requires
        keys_unique(s),
        !has_key(s, c.key),
    ensures
        keys_unique(s.push(c)),
        forall|b: u8| has_key(s.push(c), b) <==> (has_key(s, b) || b == c.key),
        child_with(s.push(c), c.key) == c,
        forall|b: u8|
            b != c.key && has_key(s, b) ==> child_with(s.push(c), b) == child_with(s, b),
        seq_size(s.push(c)) == seq_size(s) + c.size(),
{
    let t = s.push(c);
    assert forall|i: int, j: int| 0 <= i < j < t.len() implies t[i].key != t[j].key by {
        if j == s.len() {
            assert(t[i] == s[i]);
            assert(!(s[i].key == c.key));
        }
    }
    assert forall|b: u8| has_key(t, b) implies (has_key(s, b) || b == c.key) by {
        let i = choose|i: int| 0 <= i < t.len() && t[i].key == b;
        if i < s.len() {
            assert(s[i].key == b);
        }
    }
    assert forall|b: u8| has_key(s, b) implies has_key(t, b) by {
        let i = choose|i: int| 0 <= i < s.len() && s[i].key == b;
        assert(t[i].key == b);
    }
    assert(t[s.len() as int] == c);
    lemma_key_index_is(t, c.key, s.len() as int);
    assert forall|b: u8|
        b != c.key && has_key(s, b) implies child_with(t, b) == child_with(s, b) by {
        let i = key_index(s, b);
        assert(0 <= i < s.len() && s[i].key == b);
        assert(t[i] == s[i]);
        lemma_key_index_is(t, b, i);
    }
    lemma_seq_size_push(s, c);
}

/// Removing the node at position `k`: how every label then resolves.
pub proof fn lemma_lookup_remove(s: Seq<Node>, k: int)
    requires
        keys_unique(s),
        0 <= k < s.len(),
    ensures
        keys_unique(s.remove(k)),
        !has_key(s.remove(k), s[k].key),
        forall|b: u8| b != s[k].key ==> (has_key(s.remove(k), b) <==> has_key(s, b)),
        forall|b: u8|
            b != s[k].key && has_key(s, b) ==> child_with(s.remove(k), b) == child_with(s, b),
        seq_size(s.remove(k)) + s[k].size() == seq_size(s),
{
    let t = s.remove(k);
    s.remove_ensures(k);
    assert forall|i: int, j: int| 0 <= i < j < t.len() implies t[i].key != t[j].key by {
        let i0 = if i < k { i } else { i + 1 };
        let j0 = if j < k { j } else { j + 1 };
        assert(t[i] == s[i0] && t[j] == s[j0]);
    }
    assert forall|i: int| 0 <= i < t.len() implies t[i].key != s[k].key by {
        let i0 = if i < k { i } else { i + 1 };
        assert(t[i] == s[i0]);
        assert(i0 != k);
    }
    assert forall|b: u8| b != s[k].key && has_key(s, b) implies has_key(t, b)
        && child_with(t, b) == child_with(s, b) by {
        let i = key_index(s, b);
        assert(0 <= i < s.len() && s[i].key == b);
        assert(i != k);
        let j = if i < k { i } else { i - 1 };
        assert(t[j] == s[i]);
        lemma_key_index_is(t, b, j);
        lemma_key_index_is(s, b, i);
    }
    assert forall|b: u8| b != s[k].key && has_key(t, b) implies has_key(s, b) by {
        let j = choose|j: int| 0 <= j < t.len() && t[j].key == b;
        let j0 = if j < k { j } else { j + 1 };
        assert(s[j0].key == b);
    }
    lemma_seq_size_remove(s, k);
}

/// Replacing the node at position `k` by one with the same label: how every
/// label then resolves.
pub proof fn lemma_lookup_update(s: Seq<Node>, k: int, c: Node)
    requires
        keys_unique(s),
        0 <= k < s.len(),
        c.key == s[k].key,
    ensures
        keys_unique(s.update(k, c)),
        forall|b: u8| has_key(s.update(k, c), b) <==> has_key(s, b),
        child_with(s.update(k, c), c.key) == c,
        forall|b: u8|
            b != c.key && has_key(s, b) ==> child_with(s.update(k, c), b) == child_with(s, b),
        seq_size(s.update(k, c)) + s[k].size() == seq_size(s) + c.size(),
{
    let t = s.update(k, c);
    assert forall|i: int, j: int| 0 <= i < j < t.len() implies t[i].key != t[j].key by {
        assert(t[i].key == s[i].key && t[j].key == s[j].key);
    }
    assert forall|b: u8| has_key(t, b) implies has_key(s, b) by {
        let i = choose|i: int| 0 <= i < t.len() && t[i].key == b;
        assert(s[i].key == b);
    }
    assert forall|b: u8| has_key(s, b) implies has_key(t, b) by {
        let i = choose|i: int| 0 <= i < s.len() && s[i].key == b;
        assert(t[i].key == b);
    }
    lemma_key_index_is(t, c.key, k);
    assert forall|b: u8|
        b != c.key && has_key(s, b) implies child_with(t, b) == child_with(s, b) by {
        let i = key_index(s, b);
        assert(0 <= i < s.len() && s[i].key == b);
        assert(i != k);
        assert(t[i] == s[i]);
        lemma_key_index_is(t, b, i);
    }
    lemma_seq_size_update(s, k, c);
}

/// A non-empty prefix relation steps down to the tails.
pub proof fn lemma_prefix_tail(p: Seq<u8>, q: Seq<u8>)
    requires
        p.len() > 0,
        p.is_prefix_of(q),
    ensures
        p.len() <= q.len(),
        p[0] == q[0],
        p.subrange(1, p.len() as int).is_prefix_of(q.subrange(1, q.len() as int)),
{
    let p1 = p.subrange(1, p.len() as int);
    let q1 = q.subrange(1, q.len() as int);
    assert(p[0] == q.subrange(0, p.len() as int)[0]);
    assert forall|i: int| 0 <= i < p1.len() implies p1[i] == q1.subrange(0, p1.len() as int)[i] by {
        assert(p1[i] == p[i + 1]);
        assert(p[i + 1] == q.subrange(0, p.len() as int)[i + 1]);
    }
    assert(p1 =~= q1.subrange(0, p1.len() as int));
}

/// A prefix relation on the tails lifts to the whole sequences when the
/// heads agree.
pub proof fn lemma_prefix_cons(p: Seq<u8>, q: Seq<u8>)
    requires
        p.len() > 0,
        q.len() > 0,
        p.len() <= q.len(),
        p[0] == q[0],
        p.subrange(1, p.len() as int).is_prefix_of(q.subrange(1, q.len() as int)),
    ensures
        p.is_prefix_of(q),
{
    let p1 = p.subrange(1, p.len() as int);
    let q1 = q.subrange(1, q.len() as int);
    assert forall|i: int| 0 <= i < p.len() implies p[i] == q.subrange(0, p.len() as int)[i] by {
        if i > 0 {
            assert(p[i] == p1[i - 1]);
            assert(p1[i - 1] == q1.subrange(0, p1.len() as int)[i - 1]);
            assert(q1[i - 1] == q[i]);
        }
    }
    assert(p =~= q.subrange(0, p.len() as int));
}

impl Node {
    /// Well-formed: no two children share a label, and every child is
    /// well-formed in turn.
    pub open spec fn wf(self) -> bool
        decreases self,
    {
        &&& keys_unique(self.children@)
        &&& forall|i: int|
            0 <= i < self.children@.len() ==> (#[trigger] self.children@[i]).wf()
    }

    /// The number of vertices in the subtree rooted here, this node included.
    pub open spec fn size(self) -> nat
        decreases self,
    {
        1 + seq_size(self.children@)
    }

    /// Whether this node has a direct child labelled `b`.
    pub open spec fn spec_has_child(self, b: u8) -> bool {
        has_key(self.children@, b)
    }

    /// The direct child labelled `b`.
    pub open spec fn spec_child(self, b: u8) -> Node
        recommends
            self.spec_has_child(b),
    {
        child_with(self.children@, b)
    }

    /// Whether `p` exists as a path of edge labels leading down from this
    /// node. The empty path always exists.
    pub open spec fn contains_path(self, p: Seq<u8>) -> bool
        decreases p.len(),
    {
        ||| p.len() == 0
        ||| (self.spec_has_child(p[0]) && self.spec_child(p[0]).contains_path(
            p.subrange(1, p.len() as int),
        ))
    }

    /// The longest prefix of `q` that exists as a path of edge labels
    /// leading down from this node.
    pub open spec fn longest_match(self, q: Seq<u8>) -> Seq<u8>
        decreases q.len(),
    {
        if q.len() == 0 {
            Seq::empty()
        } else if self.spec_has_child(q[0]) {
            seq![q[0]] + self.spec_child(q[0]).longest_match(q.subrange(1, q.len() as int))
        } else {
            Seq::empty()
        }
    }

    /// Creates a node with no children.
    pub fn new(key: u8) -> (n: Node)
        ensures
            n.key == key,
            n.children@ == Seq::<Node>::empty(),
            n.wf(),
            n.size() == 1,
    {
        let n = Node { key, children: Vec::new() };
        n
    }

    /// Pure membership test: is there a direct child labelled `key`?
    pub fn contains_child(&self, key: &u8) -> (r: bool)
        ensures
            r == self.spec_has_child(*key),
    {
        let mut i: usize = 0;
        while i < self.children.len()
            invariant
                i <= self.children@.len(),
                forall|j: int| 0 <= j < i ==> self.children@[j].key != *key,
            decreases self.children@.len() - i,
        {
            if self.children[i].key == *key {
                return true;
            }
            i = i + 1;
        }
        false
    }

    /// The direct child for `key`, if present; no side effect.
    pub fn get_child(&self, key: &u8) -> (r: Option<&Node>)
        requires
            self.wf(),
        ensures
            match r {
                Some(c) => self.spec_has_child(*key) && *c == self.spec_child(*key) && c.wf(),
                None => !self.spec_has_child(*key),
            },
    {
        let mut i: usize = 0;
        while i < self.children.len()
            invariant
                self.wf(),
                i <= self.children@.len(),
                forall|j: int| 0 <= j < i ==> self.children@[j].key != *key,
            decreases self.children@.len() - i,
        {
            if self.children[i].key == *key {
                proof {
                    lemma_key_index_is(self.children@, *key, i as int);
                    assert(self.children@[i as int].wf());
                }
                return Some(&self.children[i]);
            }
            i = i + 1;
        }
        None
    }

    /// The position of the direct child labelled `key`.
    pub(crate) fn child_index(&self, key: u8) -> (k: usize)
        requires
            self.spec_has_child(key),
        ensures
            k < self.children@.len(),
            self.children@[k as int].key == key,
    {
        let mut i: usize = 0;
        while i < self.children.len()
            invariant
                self.spec_has_child(key),
                i <= self.children@.len(),
                forall|j: int| 0 <= j < i ==> self.children@[j].key != key,
            decreases self.children@.len() - i,
        {
            if self.children[i].key == key {
                return i;
            }
            i = i + 1;
        }
        proof {
            let w = choose|w: int| 0 <= w < self.children@.len() && self.children@[w].key == key;
            assert(false);
        }
        0
    }

    /// Inserts `other` keyed by its own label. A child already carrying that
    /// label is replaced outright (last write wins); the insertion algorithm
    /// of the trie only ever adds fresh labels, so nothing is discarded
    /// there, but direct callers must take the same care.
    pub fn add_child(&mut self, other: Node)
        requires
            old(self).wf(),
            other.wf(),
        ensures
            final(self).key == old(self).key,
            final(self).wf(),
            forall|b: u8|
                final(self).spec_has_child(b) <==> (old(self).spec_has_child(b) || b
                    == other.key),
            final(self).spec_child(other.key) == other,
            forall|b: u8|
                b != other.key && old(self).spec_has_child(b) ==> final(self).spec_child(b)
                    == old(self).spec_child(b),
            !old(self).spec_has_child(other.key) ==> final(self).children@ == old(
                self,
            ).children@.push(other),
            !old(self).spec_has_child(other.key) ==> final(self).size() == old(self).size()
                + other.size(),
            old(self).spec_has_child(other.key) ==> final(self).children@.len() == old(
                self,
            ).children@.len(),
            old(self).spec_has_child(other.key) ==> final(self).size() + old(self).spec_child(
                other.key,
            ).size() == old(self).size() + other.size(),
    {
        if self.contains_child(&other.key) {
            let k = self.child_index(other.key);
            let ghost s = self.children@;
            proof {
                lemma_key_index_is(s, other.key, k as int);
            }
            self.children[k] = other;
            proof {
                lemma_lookup_update(s, k as int, other);
            }
        } else {
            let ghost s = self.children@;
            self.children.push(other);
            proof {
                lemma_lookup_push(s, other);
            }
        }
    }
}

/// The longest match is itself a path of the trie, and a prefix of the query.
pub proof fn lemma_longest_match_props(n: Node, q: Seq<u8>)
    ensures
        n.longest_match(q).is_prefix_of(q),
        n.contains_path(n.longest_match(q)),
        n.longest_match(q).len() <= q.len(),
    decreases q.len(),
{
    let m = n.longest_match(q);
    if q.len() == 0 {
        assert(m =~= q.subrange(0, 0));
    } else if n.spec_has_child(q[0]) {
        let c = n.spec_child(q[0]);
        let q1 = q.subrange(1, q.len() as int);
        lemma_longest_match_props(c, q1);
        let m1 = c.longest_match(q1);
        assert(m == seq![q[0]] + m1);
        assert(m[0] == q[0]);
        assert(m.subrange(1, m.len() as int) =~= m1);
        lemma_prefix_cons(m, q);
        assert(n.contains_path(m));
    } else {
        assert(m =~= q.subrange(0, 0));
    }
}

/// Every contained prefix of the query is a prefix of the longest match:
/// nothing longer than the longest match exists as a path.
pub proof fn lemma_contained_prefix_of_longest(n: Node, q: Seq<u8>, p: Seq<u8>)
    requires
        p.is_prefix_of(q),
        n.contains_path(p),
    ensures
        p.is_prefix_of(n.longest_match(q)),
    decreases q.len(),
{
    let m = n.longest_match(q);
    if p.len() == 0 {
        assert(p =~= m.subrange(0, 0));
    } else {
        lemma_prefix_tail(p, q);
        let c = n.spec_child(q[0]);
        let p1 = p.subrange(1, p.len() as int);
        let q1 = q.subrange(1, q.len() as int);
        lemma_contained_prefix_of_longest(c, q1, p1);
        let m1 = c.longest_match(q1);
        assert(m == seq![q[0]] + m1);
        assert(m.subrange(1, m.len() as int) =~= m1);
        lemma_prefix_cons(p, m);
    }
}

/// A query is contained exactly when its longest match is the whole query.
pub proof fn lemma_contains_iff_full_match(n: Node, q: Seq<u8>)
    ensures
        n.contains_path(q) <==> n.longest_match(q) == q,
{
    lemma_longest_match_props(n, q);
    if n.contains_path(q) {
        assert(q.is_prefix_of(q)) by {
            assert(q =~= q.subrange(0, q.len() as int));
        }
        lemma_contained_prefix_of_longest(n, q, q);
        let m = n.longest_match(q);
        assert(q =~= m);
    }
}

/// Containment is closed under prefixes: every prefix of a contained path
/// is itself a contained path.
pub proof fn lemma_contains_prefix_closed(n: Node, q: Seq<u8>, p: Seq<u8>)
    requires
        n.contains_path(q),
        p.is_prefix_of(q),
    ensures
        n.contains_path(p),
    decreases q.len(),
{
    if p.len() > 0 {
        lemma_prefix_tail(p, q);
        let c = n.spec_child(q[0]);
        lemma_contains_prefix_closed(
            c,
            q.subrange(1, q.len() as int),
            p.subrange(1, p.len() as int),
        );
    }
}

} // verus!
