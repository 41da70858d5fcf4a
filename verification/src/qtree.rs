//! The trie engine: owns the root node and the counters, and exposes
//! insertion, lookup and containment over byte sequences.

use vstd::prelude::*;

use vstd::std_specs::cmp::PartialEqSpec;
use vstd::string::StrSliceExecFns;
use vstd::utf8::encode_utf8;

use crate::node::Node;
use crate::node::has_key;
use crate::node::lemma_contained_prefix_of_longest;
use crate::node::lemma_contains_iff_full_match;
use crate::node::lemma_contains_prefix_closed;
use crate::node::lemma_key_index_is;
use crate::node::lemma_longest_match_props;
use crate::node::lemma_lookup_push;
use crate::node::lemma_lookup_remove;
use crate::node::lemma_prefix_cons;
use crate::node::lemma_prefix_tail;
use crate::node::seq_size;

verus! {

/// The byte of `v` at position `pos`, if there is one.
pub fn get_char(v: &Vec<u8>, pos: usize) -> (r: Option<u8>)
    ensures
        r == if pos < v@.len() {
            Some(v@[pos as int])
        } else {
            None::<u8>
        },
{
    if v.len() > pos {
        return Some(v[pos]);
    }
    None
}

/// The trie. `root` is permanent and never replaced; `cursor` is the path of
/// edge labels from the root to the node a walk currently references, and is
/// parked back at the root (the empty path) before every public operation
/// returns; the counters track the nodes of the graph and the insertions
/// made.
pub struct Qtree {
    root: Node,
    cursor: Vec<u8>,
    node_count: u32,
    query_count: u32,
}

impl Qtree {
    /// The label of the root node (the sentinel 0).
    pub closed spec fn spec_root_key(self) -> u8 {
        self.root.key
    }

    /// The recorded total of nodes in the graph, the root included.
    pub closed spec fn spec_node_count(self) -> u32 {
        self.node_count
    }

    /// The recorded total of insertion calls made.
    pub closed spec fn spec_query_count(self) -> u32 {
        self.query_count
    }

    /// The number of nodes reachable from the root, the root included.
    pub closed spec fn spec_size(self) -> nat {
        self.root.size()
    }

    /// Whether `q` exists as a path of edge labels from the root.
    pub closed spec fn contains_path(self, q: Seq<u8>) -> bool {
        self.root.contains_path(q)
    }

    /// The longest prefix of `q` that exists as a path from the root.
    pub closed spec fn longest_match(self, q: Seq<u8>) -> Seq<u8> {
        self.root.longest_match(q)
    }

    /// The cursor is parked at the root: the path it holds is empty.
    pub closed spec fn cursor_at_root(self) -> bool {
        self.cursor@.len() == 0
    }

    /// Well-formed: the node graph is a well-formed tree under a root
    /// labelled with the sentinel, `node_count` equals the number of nodes
    /// reachable from the root, and the cursor is parked at the root.
    pub closed spec fn wf(self) -> bool {
        &&& self.root.wf()
        &&& self.root.key == 0
        &&& self.node_count as nat == self.root.size()
        &&& self.cursor_at_root()
    }

    /// Creates an empty trie: one node (the root), no insertions yet, the
    /// cursor at the root, and no non-empty path contained.
    pub fn new() -> (t: Qtree)
        ensures
            t.wf(),
            t.spec_node_count() == 1,
            t.spec_query_count() == 0,
            t.cursor_at_root(),
            forall|q: Seq<u8>| t.contains_path(q) <==> q.len() == 0,
            forall|q: Seq<u8>| t.longest_match(q) == Seq::<u8>::empty(),
    {
        let root = Node::new(0);
        let t = Qtree { root, cursor: Vec::new(), node_count: 1, query_count: 0 };
        proof {
            assert forall|q: Seq<u8>| t.contains_path(q) <==> q.len() == 0 by {
                if q.len() > 0 {
                    assert(!has_key(t.root.children@, q[0]));
                }
            }
            assert forall|q: Seq<u8>| t.longest_match(q) == Seq::<u8>::empty() by {
                if q.len() > 0 {
                    assert(!has_key(t.root.children@, q[0]));
                }
            }
        }
        t
    }

    /// The total number of nodes in the graph, the root included.
    pub fn node_count(&self) -> (r: u32)
        ensures
            r == self.spec_node_count(),
    {
        self.node_count
    }

    /// The total number of insertion calls made, duplicates included.
    pub fn query_count(&self) -> (r: u32)
        ensures
            r == self.spec_query_count(),
    {
        self.query_count
    }

    /// Parks the cursor back at the root.
    fn reset_curr(&mut self)
        ensures
            final(self).root == old(self).root,
            final(self).node_count == old(self).node_count,
            final(self).query_count == old(self).query_count,
            final(self).cursor_at_root(),
    {
        self.cursor.clear();
    }

    /// The label of the root node.
    pub fn root_key(&self) -> (r: u8)
        ensures
            r == self.spec_root_key(),
    {
        self.root.key
    }

    /// The label of the node the cursor references. The cursor is re-derived
    /// from the root at the start of every walk and parked back at the root
    /// before the walk returns, so between calls it references the root.
    pub fn cursor_key(&self) -> (r: u8)
        requires
            self.wf(),
        ensures
            r == self.spec_root_key(),
    {
        // well-formedness parks the cursor at the root, so the node it
        // references is the root itself
        self.root.key
    }

    /// Walks `v` downward from `node` starting at position `pos`, creating a
    /// node for every byte of the suffix that has no path yet, and returns
    /// how many nodes were created: the length of the suffix beyond its
    /// longest existing match. Afterwards the paths below `node` are exactly
    /// those that existed before plus every prefix of the suffix.
    fn build_path(node: &mut Node, v: &Vec<u8>, pos: usize) -> (added: u32)
        requires
            old(node).wf(),
            pos <= v@.len(),
            old(node).size() + v@.len() - pos <= u32::MAX,
        ensures
            final(node).wf(),
            final(node).key == old(node).key,
            final(node).size() == old(node).size() + added,
            added + old(node).longest_match(v@.skip(pos as int)).len() == v@.len() - pos,
            forall|p: Seq<u8>|
                #[trigger] final(node).contains_path(p) <==> (old(node).contains_path(p)
                    || p.is_prefix_of(v@.skip(pos as int))),
        decreases v@.len() - pos,
    {
        let ghost n0 = *node;
        let ghost rest = v@.skip(pos as int);
        if let Some(ch) = get_char(v, pos) {
            proof {
                assert(rest[0] == ch);
            }
            let mut created: u32 = 0;
            // `fresh0` names the child created below; until that branch runs
            // it holds an unrelated placeholder
            let ghost mut fresh0 = n0;
            if !node.contains_child(&ch) {
                let fresh = Node::new(ch);
                proof {
                    fresh0 = fresh;
                }
                node.add_child(fresh);
                created = 1;
            }
            let ghost base = *node;
            let k = node.child_index(ch);
            let ghost s = node.children@;
            proof {
                lemma_key_index_is(s, ch, k as int);
                lemma_lookup_remove(s, k as int);
                assert(s[k as int].wf());
                assert(base.size() == 1 + seq_size(s));
            }
            let mut child = node.children.remove(k);
            let ghost child0 = child;
            proof {
                assert(pos < v.len());
            }
            let below = Self::build_path(&mut child, v, pos + 1);
            let ghost c1 = child;
            node.children.push(child);
            let ghost rest1 = v@.skip(pos as int + 1);
            proof {
                assert(rest.subrange(1, rest.len() as int) =~= rest1);
                lemma_lookup_push(s.remove(k as int), c1);
                let t = node.children@;
                assert(t == s.remove(k as int).push(c1));
                // every child of the rebuilt node is well-formed
                assert forall|i: int| 0 <= i < t.len() implies (#[trigger] t[i]).wf() by {
                    if i < t.len() - 1 {
                        s.remove_ensures(k as int);
                        assert(t[i] == s.remove(k as int)[i]);
                        if i < k as int {
                            assert(s[i].wf());
                        } else {
                            assert(s[i + 1].wf());
                        }
                    } else {
                        assert(t[i] == c1);
                    }
                }
                assert(node.wf());
                // size accounting
                assert(seq_size(t) == seq_size(s) + below);
                assert(node.size() == base.size() + below);
                // how each label resolves in the rebuilt node
                assert(node.spec_has_child(ch));
                assert(node.spec_child(ch) == c1);
                if created == 1 {
                    assert(child0 == fresh0);
                    assert(base.size() == n0.size() + 1);
                    assert(forall|p: Seq<u8>| child0.contains_path(p) <==> p.len() == 0) by {
                        assert(forall|b: u8| !has_key(fresh0.children@, b));
                    }
                    assert(child0.longest_match(rest1) == Seq::<u8>::empty()) by {
                        if rest1.len() > 0 {
                            assert(!has_key(fresh0.children@, rest1[0]));
                        }
                    }
                    assert(!n0.spec_has_child(ch));
                    assert(n0.longest_match(rest) == Seq::<u8>::empty());
                } else {
                    assert(base == n0);
                    assert(n0.spec_child(ch) == child0);
                    assert(n0.longest_match(rest) == seq![ch] + child0.longest_match(rest1));
                }
                // the containment relation, byte path by byte path
                assert forall|p: Seq<u8>|
                    #[trigger] node.contains_path(p) <==> (n0.contains_path(p)
                        || p.is_prefix_of(rest)) by {
                    if p.len() == 0 {
                        assert(node.contains_path(p));
                        assert(n0.contains_path(p));
                    } else {
                        let p1 = p.subrange(1, p.len() as int);
                        if p[0] == ch {
                            assert(node.contains_path(p) == c1.contains_path(p1));
                            assert(c1.contains_path(p1) <==> (child0.contains_path(p1)
                                || p1.is_prefix_of(rest1)));
                            if p.is_prefix_of(rest) {
                                lemma_prefix_tail(p, rest);
                                assert(p1.is_prefix_of(rest1));
                            }
                            if p1.is_prefix_of(rest1) {
                                lemma_prefix_cons(p, rest);
                                assert(p.is_prefix_of(rest));
                            }
                            if created == 1 {
                                assert(!n0.contains_path(p));
                                if p1.len() == 0 {
                                    assert(p =~= rest.subrange(0, 1));
                                    assert(p.is_prefix_of(rest));
                                }
                            } else {
                                assert(n0.contains_path(p) == child0.contains_path(p1));
                            }
                        } else {
                            if p.is_prefix_of(rest) {
                                lemma_prefix_tail(p, rest);
                                assert(false);
                            }
                            assert(node.spec_has_child(p[0]) == n0.spec_has_child(p[0]));
                            if n0.spec_has_child(p[0]) {
                                assert(node.spec_child(p[0]) == n0.spec_child(p[0]));
                            }
                        }
                    }
                }
            }
            created + below
        } else {
            proof {
                assert(rest.len() == 0);
                assert(n0.longest_match(rest) == Seq::<u8>::empty());
                assert forall|p: Seq<u8>|
                    #[trigger] node.contains_path(p) <==> (n0.contains_path(p)
                        || p.is_prefix_of(rest)) by {
                    if p.is_prefix_of(rest) {
                        assert(p.len() == 0);
                    }
                }
            }
            0
        }
    }

    /// Inserts the byte sequence of `query`: walks it down from the root,
    /// creating a node for every byte beyond the longest prefix already
    /// present, parks the cursor back at the root and counts the call.
    /// Insertion always succeeds; an empty string adds no node but is still
    /// counted.
    pub fn add(&mut self, query: String)
        requires
            old(self).wf(),
            old(self).spec_query_count() < u32::MAX,
            old(self).spec_node_count() + encode_utf8(query@).len() <= u32::MAX,
        ensures
            final(self).wf(),
            final(self).spec_query_count() == old(self).spec_query_count() + 1,
            final(self).spec_node_count() + old(self).longest_match(
                encode_utf8(query@),
            ).len() == old(self).spec_node_count() + encode_utf8(query@).len(),
            forall|p: Seq<u8>|
                #[trigger] final(self).contains_path(p) <==> (old(self).contains_path(p)
                    || p.is_prefix_of(encode_utf8(query@))),
            final(self).contains_path(encode_utf8(query@)),
            final(self).cursor_at_root(),
            final(self).spec_root_key() == old(self).spec_root_key(),
    {
        let v: Vec<u8> = query.as_str().as_bytes_vec();
        proof {
            assert(v@.skip(0) =~= v@);
        }
        let added = Self::build_path(&mut self.root, &v, 0);
        self.node_count = self.node_count + added;
        self.query_count = self.query_count + 1;
        self.reset_curr();
        proof {
            assert(v@.is_prefix_of(v@)) by {
                assert(v@ =~= v@.subrange(0, v@.len() as int));
            }
        }
    }

    /// Walks `query` downward from the root, starting at position
    /// `path.len()` of `query`, appending every matched byte to `path` and
    /// stopping at the first byte with no child: `path` is extended by
    /// exactly the longest matching path of the remaining suffix. The trie
    /// itself is left unchanged, its cursor back at the root.
    pub fn traverse(&mut self, query: Vec<u8>, path: &mut Vec<u8>)
        requires
            old(self).wf(),
        ensures
            *final(self) == *old(self),
            old(path)@.len() <= query@.len() ==> final(path)@ == old(path)@ + old(
                self,
            ).longest_match(query@.skip(old(path)@.len() as int)),
            old(path)@.len() > query@.len() ==> final(path)@ == old(path)@,
    {
        let ghost p0 = old(path)@;
        let mut cur: &Node = &self.root;
        loop
            invariant
                self.wf(),
                p0.len() <= path@.len(),
                path@.subrange(0, p0.len() as int) == p0,
                p0.len() <= query@.len() ==> path@.len() <= query@.len(),
                p0.len() <= query@.len() ==> cur.wf(),
                p0.len() <= query@.len() ==> self.longest_match(
                    query@.skip(p0.len() as int),
                ) == path@.skip(p0.len() as int) + cur.longest_match(
                    query@.skip(path@.len() as int),
                ),
                p0.len() > query@.len() ==> path@ == p0,
            ensures
                p0.len() <= query@.len() ==> path@.len() <= query@.len(),
                p0.len() <= query@.len() ==> cur.longest_match(
                    query@.skip(path@.len() as int),
                ) == Seq::<u8>::empty(),
                p0.len() <= query@.len() ==> self.longest_match(
                    query@.skip(p0.len() as int),
                ) == path@.skip(p0.len() as int) + cur.longest_match(
                    query@.skip(path@.len() as int),
                ),
                p0.len() <= path@.len(),
                path@.subrange(0, p0.len() as int) == p0,
                p0.len() > query@.len() ==> path@ == p0,
            decreases (if path@.len() <= query@.len() {
                query@.len() - path@.len()
            } else {
                0
            }),
        {
            if let Some(ch) = get_char(&query, path.len()) {
                proof {
                    assert(path@.len() < query@.len());
                }
                match cur.get_child(&ch) {
                    Some(next) => {
                        let ghost pv = path@;
                        let ghost m = path@.len() as int;
                        let ghost qm = query@.skip(m);
                        proof {
                            assert(qm[0] == ch);
                            assert(qm.subrange(1, qm.len() as int) =~= query@.skip(m + 1));
                            assert(cur.longest_match(qm) == seq![ch]
                                + cur.spec_child(ch).longest_match(query@.skip(m + 1)));
                        }
                        path.push(ch);
                        proof {
                            assert(path@.subrange(0, p0.len() as int) =~= p0);
                            assert(path@.skip(p0.len() as int) =~= pv.skip(p0.len() as int)
                                + seq![ch]);
                            assert((pv.skip(p0.len() as int) + seq![ch]) + cur.spec_child(
                                ch,
                            ).longest_match(query@.skip(m + 1)) =~= pv.skip(p0.len() as int) + (
                            seq![ch] + cur.spec_child(ch).longest_match(query@.skip(m + 1))));
                        }
                        cur = next;
                    },
                    None => {
                        proof {
                            let m = path@.len() as int;
                            let qm = query@.skip(m);
                            assert(qm[0] == ch);
                            assert(cur.longest_match(qm) == Seq::<u8>::empty());
                        }
                        break;
                    },
                }
            } else {
                proof {
                    if p0.len() <= query@.len() {
                        assert(path@.len() == query@.len());
                        assert(query@.skip(path@.len() as int) =~= Seq::<u8>::empty());
                        assert(cur.longest_match(query@.skip(path@.len() as int))
                            == Seq::<u8>::empty());
                    }
                }
                break;
            }
        }
        proof {
            if p0.len() <= query@.len() {
                assert(path@ =~= path@.subrange(0, p0.len() as int) + path@.skip(
                    p0.len() as int,
                ));
                assert(path@.skip(p0.len() as int) + Seq::<u8>::empty() =~= path@.skip(
                    p0.len() as int,
                ));
            }
        }
    }

    /// The longest prefix of the byte sequence of `query` that exists as a
    /// path from the root, as bytes. The trie itself is left unchanged.
    pub fn get(&mut self, query: String) -> (r: Vec<u8>)
        requires
            old(self).wf(),
        ensures
            *final(self) == *old(self),
            r@ == old(self).longest_match(encode_utf8(query@)),
    {
        let v = query.as_str().as_bytes_vec();
        let mut path: Vec<u8> = Vec::new();
        self.traverse(v, &mut path);
        proof {
            assert(encode_utf8(query@).skip(0) =~= encode_utf8(query@));
            assert(Seq::<u8>::empty() + old(self).longest_match(encode_utf8(query@))
                =~= old(self).longest_match(encode_utf8(query@)));
        }
        path
    }

    /// Whether the whole byte sequence of `query` exists as a path from the
    /// root: true exactly when the longest matching path is the sequence
    /// itself. The trie has no terminal markers, so every prefix of an
    /// inserted sequence is reported as contained. The trie itself is left
    /// unchanged.
    pub fn contains(&mut self, query: String) -> (r: bool)
        requires
            old(self).wf(),
        ensures
            *final(self) == *old(self),
            r == old(self).contains_path(encode_utf8(query@)),
    {
        let mut path: Vec<u8> = Vec::new();
        let v = query.as_str().as_bytes_vec();
        let w = v.clone();
        proof {
            assert(w@ =~= v@);
            assert(w@.skip(0) =~= w@);
        }
        self.traverse(w, &mut path);
        let r = path == v;
        proof {
            assert(Seq::<u8>::empty() + old(self).longest_match(v@) =~= old(
                self,
            ).longest_match(v@));
            assert(path@ == old(self).longest_match(v@));
            if r {
                assert(path@ =~= v@);
            }
            if path@ == v@ {
                assert(path.eq_spec(&v));
            }
            lemma_contains_iff_full_match(old(self).root, v@);
        }
        r
    }
}

/// Containment has no terminal markers: every prefix of a contained path is
/// itself a contained path. After inserting only "foo", both "fo" and "f"
/// are reported as contained.
pub proof fn lemma_prefix_containment(t: Qtree, q: Seq<u8>, p: Seq<u8>)
    requires
        t.contains_path(q),
        p.is_prefix_of(q),
    ensures
        t.contains_path(p),
{
    lemma_contains_prefix_closed(t.root, q, p);
}

/// The longest matching path of a query is a prefix of the query, is itself
/// a contained path, and every contained prefix of the query is a prefix of
/// it: nothing longer matches.
pub proof fn lemma_longest_match_correct(t: Qtree, q: Seq<u8>)
    ensures
        t.longest_match(q).is_prefix_of(q),
        t.contains_path(t.longest_match(q)),
        forall|p: Seq<u8>|
            p.is_prefix_of(q) && #[trigger] t.contains_path(p) ==> p.is_prefix_of(
                t.longest_match(q),
            ),
{
    lemma_longest_match_props(t.root, q);
    assert forall|p: Seq<u8>|
        p.is_prefix_of(q) && #[trigger] t.contains_path(p) implies p.is_prefix_of(
        t.longest_match(q),
    ) by {
        lemma_contained_prefix_of_longest(t.root, q, p);
    }
}

/// Inserting the same byte sequence twice is idempotent on the structure:
/// the second insertion leaves the node count unchanged, while the query
/// counter still advances by one. The hypotheses are the insertion contract
/// of `add`, taken twice in a row for the same sequence.
pub proof fn lemma_idempotent_structure(t0: Qtree, t1: Qtree, t2: Qtree, q: Seq<u8>)
    requires
        forall|p: Seq<u8>|
            #[trigger] t1.contains_path(p) <==> (t0.contains_path(p) || p.is_prefix_of(q)),
        t1.spec_node_count() + t0.longest_match(q).len() == t0.spec_node_count() + q.len(),
        t1.spec_query_count() == t0.spec_query_count() + 1,
        forall|p: Seq<u8>|
            #[trigger] t2.contains_path(p) <==> (t1.contains_path(p) || p.is_prefix_of(q)),
        t2.spec_node_count() + t1.longest_match(q).len() == t1.spec_node_count() + q.len(),
        t2.spec_query_count() == t1.spec_query_count() + 1,
    ensures
        t2.spec_node_count() == t1.spec_node_count(),
        t2.spec_query_count() == t1.spec_query_count() + 1,
{
    assert(q.is_prefix_of(q)) by {
        assert(q =~= q.subrange(0, q.len() as int));
    }
    assert(t1.contains_path(q));
    lemma_contains_iff_full_match(t1.root, q);
}

/// The recorded node count of a well-formed trie equals the number of nodes
/// reachable from its root, the root included.
pub proof fn lemma_node_count_is_reachable(t: Qtree)
    requires
        t.wf(),
    ensures
        t.spec_node_count() as nat == t.spec_size(),
{
}

} // verus!
