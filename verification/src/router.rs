//! A segment trie mapping path templates to handlers, one root per method.
//!
//! The router's view is a map from `(Method, segments)` pairs to handlers:
//! `insert` updates that map at one key and `lookup` reads it, so a lookup
//! depends only on the non-empty segments of the path, never on how many
//! slashes separated them.

use vstd::prelude::*;
use crate::path::{segments, views_of, split_segments};

verus! {

/// The HTTP methods this core recognizes: a closed enumeration.
#[derive(Clone, Copy, PartialEq, Eq, Structural, Debug)]
pub enum Method {
    GET,
    POST,
    PUT,
    DELETE,
}

/// One trie node: a segment label, child nodes (one per distinct label),
/// and the handler attached to the path ending here, if any.
pub struct Node<H> {
    pub nodes: Vec<Node<H>>,
    pub key: String,
    pub handler: Option<H>,
}

/// Index of the first node in `nodes` whose label is `key`, or -1.
pub open spec fn child_idx<H>(nodes: Seq<Node<H>>, key: Seq<char>) -> int
    decreases nodes.len(),
{
    if nodes.len() == 0 {
        -1
    } else if nodes[0].key@ == key {
        0
    } else {
        let r = child_idx(nodes.drop_first(), key);
        if r == -1 {
            -1
        } else {
            r + 1
        }
    }
}

/// The handler reached from `n` by consuming `segs`, if any.
pub open spec fn route_of<H>(n: Node<H>, segs: Seq<Seq<char>>) -> Option<H>
    decreases segs.len(),
{
    if segs.len() == 0 {
        n.handler
    } else {
        let j = child_idx(n.nodes@, segs[0]);
        if j == -1 {
            None
        } else {
            route_of(n.nodes@[j], segs.drop_first())
        }
    }
}

/// Well-formedness of a trie: no two children of a node share a label.
pub open spec fn node_wf<H>(n: Node<H>) -> bool
    decreases n,
{
    &&& forall|i: int, j: int|
        0 <= i < j < n.nodes@.len() ==> n.nodes@[i].key@ != n.nodes@[j].key@
    &&& forall|i: int| 0 <= i < n.nodes@.len() ==> node_wf(#[trigger] n.nodes@[i])
}

proof fn lemma_child_idx_props<H>(nodes: Seq<Node<H>>, key: Seq<char>)
    ensures
        child_idx(nodes, key) == -1 ==> (forall|t: int|
            0 <= t < nodes.len() ==> nodes[t].key@ != key),
        child_idx(nodes, key) != -1 ==> 0 <= child_idx(nodes, key) < nodes.len()
            && nodes[child_idx(nodes, key)].key@ == key && (forall|t: int|
            0 <= t < child_idx(nodes, key) ==> nodes[t].key@ != key),
    decreases nodes.len(),
{
    if nodes.len() == 0 {
    } else if nodes[0].key@ == key {
    } else {
        let d = nodes.drop_first();
        lemma_child_idx_props(d, key);
        if child_idx(nodes, key) == -1 {
            assert forall|t: int| 0 <= t < nodes.len() implies nodes[t].key@ != key by {
                if t > 0 {
                    assert(d[t - 1] == nodes[t]);
                }
            }
        } else {
            let r = child_idx(d, key);
            assert(nodes[child_idx(nodes, key)] == d[r]);
            assert forall|t: int| 0 <= t < child_idx(nodes, key) implies nodes[t].key@ != key by {
                if t > 0 {
                    assert(d[t - 1] == nodes[t]);
                }
            }
        }
    }
}

proof fn lemma_child_idx_of_first<H>(nodes: Seq<Node<H>>, key: Seq<char>, j: int)
    requires
        0 <= j < nodes.len(),
        nodes[j].key@ == key,
        forall|t: int| 0 <= t < j ==> nodes[t].key@ != key,
    ensures
        child_idx(nodes, key) == j,
    decreases nodes.len(),
{
    if j == 0 {
    } else {
        let d = nodes.drop_first();
        assert(nodes[0].key@ != key);
        assert(d[j - 1] == nodes[j]);
        assert forall|t: int| 0 <= t < j - 1 implies d[t].key@ != key by {
            assert(d[t] == nodes[t + 1]);
        }
        lemma_child_idx_of_first(d, key, j - 1);
    }
}

proof fn lemma_child_idx_same_keys<H>(n1: Seq<Node<H>>, n2: Seq<Node<H>>, key: Seq<char>)
    requires
        n1.len() == n2.len(),
        forall|t: int| 0 <= t < n1.len() ==> n1[t].key@ == #[trigger] n2[t].key@,
    ensures
        child_idx(n1, key) == child_idx(n2, key),
    decreases n1.len(),
{
    if n1.len() == 0 {
    } else {
        let d1 = n1.drop_first();
        let d2 = n2.drop_first();
        assert(n1[0].key@ == n2[0].key@);
        assert forall|t: int| 0 <= t < d1.len() implies d1[t].key@ == #[trigger] d2[t].key@ by {
            assert(d1[t] == n1[t + 1]);
            assert(d2[t] == n2[t + 1]);
        }
        lemma_child_idx_same_keys(d1, d2, key);
    }
}

impl<H> Node<H> {
    /// A fresh node labelled `key`, with no children and no handler.
    pub fn new(key: &str) -> (n: Node<H>)
        ensures
            n.key@ == key@,
            n.handler is None,
            n.nodes@.len() == 0,
            node_wf(n),
            forall|s: Seq<Seq<char>>| route_of(n, s) is None,
    {
        let n = Node { nodes: Vec::new(), key: String::from_str(key), handler: None };
        proof {
            assert forall|s: Seq<Seq<char>>| route_of(n, s) is None by {
                if s.len() == 0 {
                } else {
                    assert(child_idx(n.nodes@, s[0]) == -1);
                }
            }
        }
        n
    }

    /// Index of the first child labelled `seg`, if any.
    fn child_index(nodes: &Vec<Node<H>>, seg: &String) -> (r: Option<usize>)
        ensures
            (match r {
                Some(j) => j < nodes@.len() && child_idx(nodes@, seg@) == j as int,
                None => child_idx(nodes@, seg@) == -1,
            }),
    {
        let mut j: usize = 0;
        while j < nodes.len()
            invariant
                j <= nodes@.len(),
                forall|t: int| 0 <= t < j ==> nodes@[t].key@ != seg@,
            decreases nodes@.len() - j,
        {
            if nodes[j].key == *seg {
                proof {
                    lemma_child_idx_of_first(nodes@, seg@, j as int);
                }
                return Some(j);
            }
            j = j + 1;
        }
        proof {
            lemma_child_idx_props(nodes@, seg@);
        }
        None
    }

    fn get_segs(&self, segs: &Vec<String>, i: usize) -> (r: Option<&H>)
        requires
            i <= segs@.len(),
        ensures
            (match r {
                Some(h) => route_of(*self, views_of(segs@).skip(i as int)) == Some(*h),
                None => route_of(*self, views_of(segs@).skip(i as int)) is None,
            }),
        decreases segs@.len() - i,
    {
        let ghost rest = views_of(segs@).skip(i as int);
        if i == segs.len() {
            proof {
                assert(rest =~= Seq::<Seq<char>>::empty());
            }
            self.handler.as_ref()
        } else {
            proof {
                assert(rest[0] == segs@[i as int]@);
            }
            match Self::child_index(&self.nodes, &segs[i]) {
                Some(j) => {
                    let r = self.nodes[j].get_segs(segs, i + 1);
                    proof {
                        assert(rest.drop_first() =~= views_of(segs@).skip(i + 1));
                    }
                    r
                },
                None => None,
            }
        }
    }

    fn insert_segs(&mut self, segs: &Vec<String>, i: usize, h: H)
        requires
            i <= segs@.len(),
            node_wf(*old(self)),
        ensures
            node_wf(*final(self)),
            final(self).key == old(self).key,
            final(self).nodes@.len() >= old(self).nodes@.len(),
            forall|s: Seq<Seq<char>>|
                route_of(*final(self), s) == (if s == views_of(segs@).skip(i as int) {
                    Some(h)
                } else {
                    route_of(*old(self), s)
                }),
        decreases segs@.len() - i,
    {
        let ghost rest = views_of(segs@).skip(i as int);
        if i == segs.len() {
            proof {
                assert(rest =~= Seq::<Seq<char>>::empty());
            }
            self.handler = Some(h);
            proof {
                assert forall|s: Seq<Seq<char>>|
                    route_of(*self, s) == (if s == rest {
                        Some(h)
                    } else {
                        route_of(*old(self), s)
                    }) by {
                    if s.len() == 0 {
                        assert(s =~= Seq::<Seq<char>>::empty());
                    } else {
                        assert(s != rest);
                        assert(self.nodes@ == old(self).nodes@);
                    }
                }
            }
        } else {
            proof {
                assert(rest[0] == segs@[i as int]@);
                assert(rest.len() > 0);
                assert(rest.drop_first() =~= views_of(segs@).skip(i + 1));
            }
            match Self::child_index(&self.nodes, &segs[i]) {
                Some(j) => {
                    proof {
                        lemma_child_idx_props(self.nodes@, segs@[i as int]@);
                    }
                    let ghost pre_nodes = self.nodes@;
                    let mut child = self.nodes.remove(j);
                    let ghost pre_child = child;
                    child.insert_segs(segs, i + 1, h);
                    self.nodes.insert(j, child);
                    proof {
                        let post_nodes = self.nodes@;
                        assert(post_nodes =~= pre_nodes.update(j as int, post_nodes[j as int]));
                        let c = post_nodes[j as int];
                        assert(c.key@ == pre_child.key@);
                        lemma_insert_child_update(
                            *old(self),
                            *self,
                            j as int,
                            rest,
                            h,
                        );
                    }
                },
                None => {
                    proof {
                        lemma_child_idx_props(self.nodes@, segs@[i as int]@);
                    }
                    let mut node = Node::new(segs[i].as_str());
                    node.insert_segs(segs, i + 1, h);
                    let ghost pre_nodes = self.nodes@;
                    self.nodes.push(node);
                    proof {
                        let post_nodes = self.nodes@;
                        assert(post_nodes =~= pre_nodes.push(post_nodes[pre_nodes.len() as int]));
                        lemma_insert_child_push(*old(self), *self, rest, h);
                    }
                },
            }
        }
    }

    /// Attaches `f` to the node addressed by the segments of `path`,
    /// creating intermediate nodes as needed. Routes at every other
    /// sequence of segments are untouched; re-insertion at an existing
    /// node replaces only its handler.
    pub fn insert(&mut self, path: &str, f: H)
        requires
            node_wf(*old(self)),
        ensures
            node_wf(*final(self)),
            final(self).key == old(self).key,
            forall|s: Seq<Seq<char>>|
                route_of(*final(self), s) == (if s == segments(path@) {
                    Some(f)
                } else {
                    route_of(*old(self), s)
                }),
    {
        let segs = split_segments(path);
        proof {
            assert(views_of(segs@).skip(0) =~= views_of(segs@));
        }
        self.insert_segs(&segs, 0, f);
    }

    /// The handler attached to the node addressed by the segments of
    /// `path`, if that node exists and carries one.
    pub fn get(&self, path: &str) -> (r: Option<&H>)
        ensures
            (match r {
                Some(h) => route_of(*self, segments(path@)) == Some(*h),
                None => route_of(*self, segments(path@)) is None,
            }),
    {
        let segs = split_segments(path);
        proof {
            assert(views_of(segs@).skip(0) =~= views_of(segs@));
        }
        self.get_segs(&segs, 0)
    }
}

proof fn lemma_eq_by_head_tail(s: Seq<Seq<char>>, t: Seq<Seq<char>>)
    requires
        s.len() > 0,
        t.len() > 0,
        s[0] == t[0],
        s.drop_first() == t.drop_first(),
    ensures
        s == t,
{
    assert(s.drop_first().len() == s.len() - 1);
    assert(t.drop_first().len() == t.len() - 1);
    assert forall|k: int| 0 <= k < s.len() implies s[k] == t[k] by {
        if k > 0 {
            assert(s.drop_first()[k - 1] == s[k]);
            assert(t.drop_first()[k - 1] == t[k]);
            assert(s.drop_first()[k - 1] == t.drop_first()[k - 1]);
        }
    }
    assert(s =~= t);
}

proof fn lemma_insert_child_update<H>(
    pre: Node<H>,
    post: Node<H>,
    j: int,
    rest: Seq<Seq<char>>,
    h: H,
)
    requires
        node_wf(pre),
        0 <= j < pre.nodes@.len(),
        post.nodes@ =~= pre.nodes@.update(j, post.nodes@[j]),
        post.handler == pre.handler,
        post.key == pre.key,
        rest.len() > 0,
        pre.nodes@[j].key@ == rest[0],
        child_idx(pre.nodes@, rest[0]) == j,
        post.nodes@[j].key@ == pre.nodes@[j].key@,
        node_wf(post.nodes@[j]),
        forall|s2: Seq<Seq<char>>|
            route_of(post.nodes@[j], s2) == (if s2 == rest.drop_first() {
                Some(h)
            } else {
                route_of(pre.nodes@[j], s2)
            }),
    ensures
        node_wf(post),
        forall|s: Seq<Seq<char>>|
            route_of(post, s) == (if s == rest {
                Some(h)
            } else {
                route_of(pre, s)
            }),
{
    assert(post.nodes@.len() == pre.nodes@.len());
    assert(forall|t: int|
        0 <= t < pre.nodes@.len() ==> pre.nodes@[t].key@ == #[trigger] post.nodes@[t].key@);
    assert(node_wf(post)) by {
        assert(forall|t: int|
            0 <= t < post.nodes@.len() && t != j ==> post.nodes@[t] == pre.nodes@[t]);
    }
    assert forall|s: Seq<Seq<char>>|
        route_of(post, s) == (if s == rest {
            Some(h)
        } else {
            route_of(pre, s)
        }) by {
        if s.len() == 0 {
            assert(s != rest);
        } else {
            lemma_child_idx_same_keys(pre.nodes@, post.nodes@, s[0]);
            let ci = child_idx(pre.nodes@, s[0]);
            lemma_child_idx_props(pre.nodes@, s[0]);
            if s[0] == rest[0] {
                assert(ci == j);
                assert(child_idx(post.nodes@, s[0]) == j);
                assert(route_of(post, s) == route_of(post.nodes@[j], s.drop_first()));
                assert(route_of(pre, s) == route_of(pre.nodes@[j], s.drop_first()));
                if s == rest {
                    assert(s.drop_first() == rest.drop_first());
                    assert(route_of(post.nodes@[j], s.drop_first()) == Some(h));
                } else {
                    assert(s.drop_first() != rest.drop_first()) by {
                        if s.drop_first() =~= rest.drop_first() {
                            lemma_eq_by_head_tail(s, rest);
                        }
                    }
                    assert(route_of(post, s) == route_of(pre, s));
                }
            } else {
                assert(s != rest);
                if ci == -1 {
                } else {
                    assert(pre.nodes@[ci].key@ == s[0]);
                    assert(ci != j);
                    assert(post.nodes@[ci] == pre.nodes@[ci]);
                }
            }
        }
    }
}

proof fn lemma_insert_child_push<H>(pre: Node<H>, post: Node<H>, rest: Seq<Seq<char>>, h: H)
    requires
        node_wf(pre),
        rest.len() > 0,
        post.nodes@ =~= pre.nodes@.push(post.nodes@[pre.nodes@.len() as int]),
        post.handler == pre.handler,
        post.key == pre.key,
        child_idx(pre.nodes@, rest[0]) == -1,
        post.nodes@[pre.nodes@.len() as int].key@ == rest[0],
        node_wf(post.nodes@[pre.nodes@.len() as int]),
        forall|s2: Seq<Seq<char>>|
            route_of(post.nodes@[pre.nodes@.len() as int], s2) == (if s2 == rest.drop_first() {
                Some(h)
            } else {
                Option::<H>::None
            }),
    ensures
        node_wf(post),
        forall|s: Seq<Seq<char>>|
            route_of(post, s) == (if s == rest {
                Some(h)
            } else {
                route_of(pre, s)
            }),
{
    let n = pre.nodes@.len() as int;
    lemma_child_idx_props(pre.nodes@, rest[0]);
    assert(node_wf(post)) by {
        assert(forall|t: int| 0 <= t < n ==> post.nodes@[t] == pre.nodes@[t]);
        assert(forall|t: int| 0 <= t < n ==> pre.nodes@[t].key@ != rest[0]);
    }
    assert forall|s: Seq<Seq<char>>|
        route_of(post, s) == (if s == rest {
            Some(h)
        } else {
            route_of(pre, s)
        }) by {
        if s.len() == 0 {
            assert(s != rest);
        } else {
            assert(forall|t: int| 0 <= t < n ==> post.nodes@[t] == pre.nodes@[t]);
            let ci = child_idx(pre.nodes@, s[0]);
            lemma_child_idx_props(pre.nodes@, s[0]);
            if s[0] == rest[0] {
                assert(ci == -1);
                lemma_child_idx_of_first(post.nodes@, s[0], n);
                assert(route_of(post, s) == route_of(post.nodes@[n], s.drop_first()));
                if s == rest {
                    assert(s.drop_first() == rest.drop_first());
                } else {
                    assert(s.drop_first() != rest.drop_first()) by {
                        if s.drop_first() =~= rest.drop_first() {
                            lemma_eq_by_head_tail(s, rest);
                        }
                    }
                }
            } else {
                assert(s != rest);
                if ci == -1 {
                    lemma_child_idx_props(post.nodes@, s[0]);
                    assert(child_idx(post.nodes@, s[0]) == -1) by {
                        if child_idx(post.nodes@, s[0]) != -1 {
                            let cj = child_idx(post.nodes@, s[0]);
                            assert(post.nodes@[cj].key@ == s[0]);
                        }
                    }
                } else {
                    assert(pre.nodes@[ci].key@ == s[0]);
                    lemma_child_idx_of_first(post.nodes@, s[0], ci);
                    assert(post.nodes@[ci] == pre.nodes@[ci]);
                }
            }
        }
    }
}

/// A router: one trie root per method, kept in registration order.
pub struct Router<H> {
    pub entries: Vec<(Method, Node<H>)>,
}

/// Index of the first entry for method `m`, or -1.
pub open spec fn entry_idx<H>(entries: Seq<(Method, Node<H>)>, m: Method) -> int
    decreases entries.len(),
{
    if entries.len() == 0 {
        -1
    } else if entries[0].0 == m {
        0
    } else {
        let r = entry_idx(entries.drop_first(), m);
        if r == -1 {
            -1
        } else {
            r + 1
        }
    }
}

/// The handler registered under method `m` at segment sequence `segs`.
pub open spec fn router_route<H>(r: Router<H>, m: Method, segs: Seq<Seq<char>>) -> Option<H> {
    let j = entry_idx(r.entries@, m);
    if j == -1 {
        None
    } else {
        route_of(r.entries@[j].1, segs)
    }
}

/// Well-formedness of a router: one entry per method, each trie well formed.
pub open spec fn router_wf<H>(r: Router<H>) -> bool {
    &&& forall|i: int, j: int|
        0 <= i < j < r.entries@.len() ==> r.entries@[i].0 != r.entries@[j].0
    &&& forall|i: int| 0 <= i < r.entries@.len() ==> node_wf((#[trigger] r.entries@[i]).1)
}

impl<H> View for Router<H> {
    type V = Map<(Method, Seq<Seq<char>>), H>;

    open spec fn view(&self) -> Map<(Method, Seq<Seq<char>>), H> {
        Map::new(
            |k: (Method, Seq<Seq<char>>)| router_route(*self, k.0, k.1) is Some,
            |k: (Method, Seq<Seq<char>>)| router_route(*self, k.0, k.1).unwrap(),
        )
    }
}

/// The result a lookup owes for method `m` and path `p` against the route
/// table `routes`: the handler stored under the segments of `p`, if any.
pub open spec fn map_route<H>(
    routes: Map<(Method, Seq<Seq<char>>), H>,
    m: Method,
    p: Seq<char>,
) -> Option<H> {
    if routes.contains_key((m, segments(p))) {
        Some(routes[(m, segments(p))])
    } else {
        None
    }
}

proof fn lemma_entry_idx_props<H>(entries: Seq<(Method, Node<H>)>, m: Method)
    ensures
        entry_idx(entries, m) == -1 ==> (forall|t: int|
            0 <= t < entries.len() ==> (#[trigger] entries[t]).0 != m),
        entry_idx(entries, m) != -1 ==> 0 <= entry_idx(entries, m) < entries.len()
            && entries[entry_idx(entries, m)].0 == m && (forall|t: int|
            0 <= t < entry_idx(entries, m) ==> (#[trigger] entries[t]).0 != m),
    decreases entries.len(),
{
    if entries.len() == 0 {
    } else if entries[0].0 == m {
    } else {
        let d = entries.drop_first();
        lemma_entry_idx_props(d, m);
        if entry_idx(entries, m) == -1 {
            assert forall|t: int| 0 <= t < entries.len() implies (#[trigger] entries[t]).0
                != m by {
                if t > 0 {
                    assert(d[t - 1] == entries[t]);
                }
            }
        } else {
            let r = entry_idx(d, m);
            assert(entries[entry_idx(entries, m)] == d[r]);
            assert forall|t: int| 0 <= t < entry_idx(entries, m) implies (#[trigger] entries[t]).0
                != m by {
                if t > 0 {
                    assert(d[t - 1] == entries[t]);
                }
            }
        }
    }
}

proof fn lemma_entry_idx_of_first<H>(entries: Seq<(Method, Node<H>)>, m: Method, j: int)
    requires
        0 <= j < entries.len(),
        entries[j].0 == m,
        forall|t: int| 0 <= t < j ==> (#[trigger] entries[t]).0 != m,
    ensures
        entry_idx(entries, m) == j,
    decreases entries.len(),
{
    if j == 0 {
    } else {
        let d = entries.drop_first();
        assert(entries[0].0 != m);
        assert(d[j - 1] == entries[j]);
        assert forall|t: int| 0 <= t < j - 1 implies (#[trigger] d[t]).0 != m by {
            assert(d[t] == entries[t + 1]);
        }
        lemma_entry_idx_of_first(d, m, j - 1);
    }
}

proof fn lemma_entry_idx_same_methods<H>(
    e1: Seq<(Method, Node<H>)>,
    e2: Seq<(Method, Node<H>)>,
    m: Method,
)
    requires
        e1.len() == e2.len(),
        forall|t: int| 0 <= t < e1.len() ==> (#[trigger] e1[t]).0 == (#[trigger] e2[t]).0,
    ensures
        entry_idx(e1, m) == entry_idx(e2, m),
    decreases e1.len(),
{
    if e1.len() == 0 {
    } else {
        let d1 = e1.drop_first();
        let d2 = e2.drop_first();
        assert(e1[0].0 == e2[0].0);
        assert forall|t: int| 0 <= t < d1.len() implies (#[trigger] d1[t]).0 == (
        #[trigger] d2[t]).0 by {
            assert(d1[t] == e1[t + 1]);
            assert(d2[t] == e2[t + 1]);
        }
        lemma_entry_idx_same_methods(d1, d2, m);
    }
}

proof fn lemma_router_update_view<H>(pre: Router<H>, post: Router<H>, m: Method, p: Seq<char>, h: H)
    requires
        forall|m2: Method, s2: Seq<Seq<char>>|
            router_route(post, m2, s2) == (if m2 == m && s2 == segments(p) {
                Some(h)
            } else {
                router_route(pre, m2, s2)
            }),
    ensures
        post@ == pre@.insert((m, segments(p)), h),
{
    let k = (m, segments(p));
    let target = pre@.insert(k, h);
    assert forall|k2: (Method, Seq<Seq<char>>)|
        post@.contains_key(k2) <==> target.contains_key(k2) by {
        assert(router_route(post, k2.0, k2.1) == (if k2.0 == m && k2.1 == segments(p) {
            Some(h)
        } else {
            router_route(pre, k2.0, k2.1)
        }));
    }
    assert forall|k2: (Method, Seq<Seq<char>>)|
        post@.contains_key(k2) implies post@[k2] == target[k2] by {
        assert(router_route(post, k2.0, k2.1) == (if k2.0 == m && k2.1 == segments(p) {
            Some(h)
        } else {
            router_route(pre, k2.0, k2.1)
        }));
    }
    assert(post@ =~= target);
}

impl<H> Router<H> {
    /// An empty router: no method has any route.
    pub fn new() -> (r: Router<H>)
        ensures
            router_wf(r),
            r@ == Map::<(Method, Seq<Seq<char>>), H>::empty(),
    {
        let r = Router::<H> { entries: Vec::new() };
        proof {
            assert forall|k: (Method, Seq<Seq<char>>)| !r@.contains_key(k) by {
                assert(entry_idx(r.entries@, k.0) == -1);
            }
            assert(r@ =~= Map::<(Method, Seq<Seq<char>>), H>::empty());
        }
        r
    }

    fn entry_index(entries: &Vec<(Method, Node<H>)>, m: Method) -> (r: Option<usize>)
        ensures
            (match r {
                Some(j) => j < entries@.len() && entry_idx(entries@, m) == j as int,
                None => entry_idx(entries@, m) == -1,
            }),
    {
        let mut j: usize = 0;
        while j < entries.len()
            invariant
                j <= entries@.len(),
                forall|t: int| 0 <= t < j ==> (#[trigger] entries@[t]).0 != m,
            decreases entries@.len() - j,
        {
            if entries[j].0 == m {
                proof {
                    lemma_entry_idx_of_first(entries@, m, j as int);
                }
                return Some(j);
            }
            j = j + 1;
        }
        proof {
            lemma_entry_idx_props(entries@, m);
        }
        None
    }

    /// Registers `handler` for `method` at the template `path`: the route
    /// table gains (or overwrites) exactly the key made of `method` and the
    /// segments of `path`.
    pub fn insert(&mut self, method: Method, path: &str, handler: H)
        requires
            router_wf(*old(self)),
        ensures
            router_wf(*final(self)),
            final(self)@ == old(self)@.insert((method, segments(path@)), handler),
    {
        let ghost pre = *self;
        let idx = Self::entry_index(&self.entries, method);
        proof {
            lemma_entry_idx_props(self.entries@, method);
        }
        match idx {
            Some(j) => {
                let (m0, mut node) = self.entries.remove(j);
                node.insert(path, handler);
                self.entries.insert(j, (m0, node));
                proof {
                    let post_entries = self.entries@;
                    assert(post_entries =~= pre.entries@.update(j as int, post_entries[j as int]));
                    assert(forall|t: int|
                        0 <= t < pre.entries@.len() ==> (#[trigger] pre.entries@[t]).0 == (
                        #[trigger] post_entries[t]).0);
                    assert(forall|t: int|
                        0 <= t < post_entries.len() && t != j ==> post_entries[t]
                            == pre.entries@[t]);
                    assert forall|m2: Method, s2: Seq<Seq<char>>|
                        router_route(*self, m2, s2) == (if m2 == method && s2 == segments(path@) {
                            Some(handler)
                        } else {
                            router_route(pre, m2, s2)
                        }) by {
                        lemma_entry_idx_same_methods(pre.entries@, post_entries, m2);
                        let ei = entry_idx(pre.entries@, m2);
                        lemma_entry_idx_props(pre.entries@, m2);
                        if m2 == method {
                            assert(ei == j);
                        } else {
                            if ei != -1 {
                                assert(pre.entries@[ei].0 == m2);
                                assert(ei != j);
                            }
                        }
                    }
                    lemma_router_update_view(pre, *self, method, path@, handler);
                }
            },
            None => {
                let mut node = Node::new("/");
                node.insert(path, handler);
                self.entries.push((method, node));
                proof {
                    let post_entries = self.entries@;
                    let n = pre.entries@.len() as int;
                    assert(post_entries =~= pre.entries@.push(post_entries[n]));
                    assert(forall|t: int|
                        0 <= t < n ==> post_entries[t] == pre.entries@[t]);
                    assert(forall|t: int|
                        0 <= t < n ==> (#[trigger] pre.entries@[t]).0 != method);
                    assert forall|m2: Method, s2: Seq<Seq<char>>|
                        router_route(*self, m2, s2) == (if m2 == method && s2 == segments(path@) {
                            Some(handler)
                        } else {
                            router_route(pre, m2, s2)
                        }) by {
                        let ei = entry_idx(pre.entries@, m2);
                        lemma_entry_idx_props(pre.entries@, m2);
                        if m2 == method {
                            assert(ei == -1);
                            lemma_entry_idx_of_first(post_entries, m2, n);
                        } else {
                            if ei == -1 {
                                lemma_entry_idx_props(post_entries, m2);
                                assert(entry_idx(post_entries, m2) == -1) by {
                                    if entry_idx(post_entries, m2) != -1 {
                                        let cj = entry_idx(post_entries, m2);
                                        assert(post_entries[cj].0 == m2);
                                    }
                                }
                            } else {
                                assert(pre.entries@[ei].0 == m2);
                                lemma_entry_idx_of_first(post_entries, m2, ei);
                            }
                        }
                    }
                    lemma_router_update_view(pre, *self, method, path@, handler);
                }
            },
        }
    }

    /// Looks up the handler for `method` at `path`: the result is exactly
    /// what the route table holds under the segments of `path` - `None`
    /// both for a method with no routes and for a path with no node.
    pub fn lookup(&self, method: Method, path: &str) -> (r: Option<&H>)
        ensures
            (match r {
                Some(h) => map_route(self@, method, path@) == Some(*h),
                None => map_route(self@, method, path@) is None,
            }),
    {
        let idx = Self::entry_index(&self.entries, method);
        proof {
            lemma_entry_idx_props(self.entries@, method);
            assert(self@.contains_key((method, segments(path@))) <==> router_route(
                *self,
                method,
                segments(path@),
            ) is Some);
        }
        match idx {
            Some(j) => self.entries[j].1.get(path),
            None => None,
        }
    }
}

/// Law: inserting a handler and then looking up the same method and path
/// yields exactly that handler.
pub proof fn lemma_insert_then_lookup<H>(
    routes: Map<(Method, Seq<Seq<char>>), H>,
    m: Method,
    p: Seq<char>,
    h: H,
)
    ensures
        map_route(routes.insert((m, segments(p)), h), m, p) == Some(h),
{
}

/// Law: re-inserting a handler at the same method and path makes lookups
/// return the newer handler, not the older one.
pub proof fn lemma_reinsert_overrides<H>(
    routes: Map<(Method, Seq<Seq<char>>), H>,
    m: Method,
    p: Seq<char>,
    h1: H,
    h2: H,
)
    ensures
        map_route(routes.insert((m, segments(p)), h1).insert((m, segments(p)), h2), m, p) == Some(
            h2,
        ),
{
}

/// Law: a lookup depends only on the segments of the path, so paths that
/// normalize alike (leading, trailing or doubled slashes) route alike.
pub proof fn lemma_lookup_normalized<H>(
    routes: Map<(Method, Seq<Seq<char>>), H>,
    m: Method,
    p1: Seq<char>,
    p2: Seq<char>,
)
    requires
        segments(p1) == segments(p2),
    ensures
        map_route(routes, m, p1) == map_route(routes, m, p2),
{
}

/// Law: a method under which nothing was registered routes nothing.
pub proof fn lemma_lookup_unregistered_method<H>(
    routes: Map<(Method, Seq<Seq<char>>), H>,
    m: Method,
    p: Seq<char>,
)
    requires
        forall|k: (Method, Seq<Seq<char>>)| routes.contains_key(k) ==> k.0 != m,
    ensures
        map_route(routes, m, p) is None,
{
    assert(!routes.contains_key((m, segments(p))));
}

/// Law: an empty route table routes nothing at all.
pub proof fn lemma_lookup_empty<H>(m: Method, p: Seq<char>)
    ensures
        map_route(Map::<(Method, Seq<Seq<char>>), H>::empty(), m, p) is None,
{
}

} // verus!
