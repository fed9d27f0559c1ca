//! A mutable directed graph over `u32` node identifiers.  Each node stores
//! its set of outgoing edges; nodes and edge sets are kept in ascending
//! order so that traversal is deterministic.  The graph is modelled as a
//! map from node identifier to the set of destination identifiers.

use vstd::prelude::*;

verus! {

use crate::cycle::Cycle;
use crate::text::{decimal_of, joined, lemma_joined_push, push_decimal, string_from_chars};

/// The rendering of one adjacency entry: `1 => 2, 3; `.
pub open spec fn entry_rendered(k: u32, l: Seq<u32>) -> Seq<char> {
    decimal_of(k as nat) + seq![' ', '=', '>', ' '] + joined(l, seq![',', ' ']) + seq![';', ' ']
}

/// The rendering of one adjacency entry in the expanded form, indented on
/// its own line: `    1 => 2, 3;`.
pub open spec fn entry_rendered_pretty(k: u32, l: Seq<u32>) -> Seq<char> {
    seq![' ', ' ', ' ', ' '] + decimal_of(k as nat) + seq![' ', '=', '>', ' '] + joined(
        l,
        seq![',', ' '],
    ) + seq![';', '\n']
}

/// The expanded renderings of the first `i` adjacency entries, in order.
pub open spec fn entries_rendered_pretty(s: Seq<(u32, Vec<u32>)>, i: int) -> Seq<char>
    decreases i,
{
    if i <= 0 || i > s.len() {
        Seq::empty()
    } else {
        entries_rendered_pretty(s, i - 1) + entry_rendered_pretty(s[i - 1].0, s[i - 1].1@)
    }
}

/// The renderings of the first `i` adjacency entries, in order.
pub open spec fn entries_rendered(s: Seq<(u32, Vec<u32>)>, i: int) -> Seq<char>
    decreases i,
{
    if i <= 0 || i > s.len() {
        Seq::empty()
    } else {
        entries_rendered(s, i - 1) + entry_rendered(s[i - 1].0, s[i - 1].1@)
    }
}

/// A directed graph: every node that exists in the graph has an entry, even
/// when its outgoing edge set is empty.  Self-loops are never stored.
pub struct Graph {
    nodes: Vec<(u32, Vec<u32>)>,
}

/// The keys of the adjacency list are strictly ascending.
pub open spec fn keys_sorted(s: Seq<(u32, Vec<u32>)>) -> bool {
    forall|i: int, j: int|
        0 <= i < j < s.len() ==> (#[trigger] s[i]).0 < (#[trigger] s[j]).0
}

/// A strictly ascending list of identifiers.
pub open spec fn list_sorted(l: Seq<u32>) -> bool {
    forall|i: int, j: int| 0 <= i < j < l.len() ==> l[i] < l[j]
}

/// Whether some entry of the adjacency list carries the key `k`.
pub open spec fn has_key(s: Seq<(u32, Vec<u32>)>, k: u32) -> bool {
    exists|i: int| 0 <= i < s.len() && (#[trigger] s[i]).0 == k
}

/// The position of the entry carrying key `k`.
pub open spec fn key_index(s: Seq<(u32, Vec<u32>)>, k: u32) -> int {
    choose|i: int| 0 <= i < s.len() && (#[trigger] s[i]).0 == k
}

/// The outgoing edge set recorded for key `k`.
pub open spec fn entry_set(s: Seq<(u32, Vec<u32>)>, k: u32) -> Set<u32> {
    Set::new(|e: u32| s[key_index(s, k)].1@.contains(e))
}

/// A well-formed adjacency list: keys strictly ascending, every edge list
/// strictly ascending, every destination present as a key, no self-loops.
pub open spec fn wf_adjacency(s: Seq<(u32, Vec<u32>)>) -> bool {
    &&& keys_sorted(s)
    &&& forall|i: int| 0 <= i < s.len() ==> list_sorted((#[trigger] s[i]).1@)
    &&& forall|i: int, e: u32|
        0 <= i < s.len() && #[trigger] s[i].1@.contains(e) ==> has_key(s, e)
    &&& forall|i: int| 0 <= i < s.len() ==> !(#[trigger] s[i]).1@.contains(s[i].0)
}

/// The outgoing set of `k`, or the empty set when `k` is not a node.
pub open spec fn succs_or_empty(m: Map<u32, Set<u32>>, k: u32) -> Set<u32> {
    if m.dom().contains(k) {
        m[k]
    } else {
        Set::empty()
    }
}

/// Whether the graph `m` holds an edge from `a` to `b`.
pub open spec fn has_edge(m: Map<u32, Set<u32>>, a: u32, b: u32) -> bool {
    m.dom().contains(a) && m[a].contains(b)
}

/// The model of an adjacency list: node identifier to destination set.
pub open spec fn map_of(s: Seq<(u32, Vec<u32>)>) -> Map<u32, Set<u32>> {
    Map::new(|k: u32| has_key(s, k), |k: u32| entry_set(s, k))
}

impl View for Graph {
    type V = Map<u32, Set<u32>>;

    closed spec fn view(&self) -> Map<u32, Set<u32>> {
        map_of(self.nodes@)
    }
}

/// With strictly ascending keys, the entry of key `s[i].0` is entry `i`.
proof fn lemma_key_index(s: Seq<(u32, Vec<u32>)>, i: int)
    requires
        keys_sorted(s),
        0 <= i < s.len(),
    ensures
        has_key(s, s[i].0),
        key_index(s, s[i].0) == i,
{
    assert(0 <= i < s.len() && (#[trigger] s[i]).0 == s[i].0);
    let j = key_index(s, s[i].0);
    assert(0 <= j < s.len() && s[j].0 == s[i].0);
    if i < j {
        assert(s[i].0 < s[j].0);
    }
    if j < i {
        assert(s[j].0 < s[i].0);
    }
}

impl Graph {
    /// The graph's structural invariant.
    pub closed spec fn wf(&self) -> bool {
        wf_adjacency(self.nodes@)
    }

    /// The number of nodes in the graph.
    pub closed spec fn node_count(&self) -> nat {
        self.nodes@.len()
    }

    /// Entry `i` of the adjacency list is node `i` of the model, and its
    /// list holds exactly the model's destination set for that node.
    proof fn lemma_view_entry(&self, i: int)
        requires
            self.wf(),
            0 <= i < self.nodes@.len(),
        ensures
            self@.dom().contains(self.nodes@[i].0),
            forall|e: u32|
                self@[self.nodes@[i].0].contains(e) == (#[trigger] self.nodes@[i].1@.contains(e)),
    {
        lemma_key_index(self.nodes@, i);
        assert forall|e: u32|
            self@[self.nodes@[i].0].contains(e) == (#[trigger] self.nodes@[i].1@.contains(e)) by {
            assert(entry_set(self.nodes@, self.nodes@[i].0).contains(e) == self.nodes@[i].1@.contains(
                e,
            ));
        }
    }

    /// Constructs a graph from a complete adjacency list.  The caller must
    /// supply a list that already satisfies the structural invariants; graphs
    /// are normally grown incrementally through `connect`, which maintains
    /// them automatically.
    pub fn new(nodes: Vec<(u32, Vec<u32>)>) -> (r: Graph)
        requires
            wf_adjacency(nodes@),
        ensures
            r.wf(),
            r.node_count() == nodes@.len(),
            forall|k: u32| r@.dom().contains(k) == has_key(nodes@, k),
            forall|i: int, e: u32|
                0 <= i < nodes@.len() ==> r@[nodes@[i].0].contains(e) == #[trigger] nodes@[i].1@.contains(
                    e,
                ),
    {
        let g = Graph { nodes };
        proof {
            assert forall|i: int, e: u32|
                0 <= i < g.nodes@.len() implies g@[g.nodes@[i].0].contains(e)
                == #[trigger] g.nodes@[i].1@.contains(e) by {
                g.lemma_view_entry(i);
            }
        }
        g
    }

    /// The position where key `id` is or would be stored.
    fn key_position(&self, id: u32) -> (r: usize)
        requires
            self.wf(),
        ensures
            r <= self.nodes@.len(),
            forall|i: int| 0 <= i < r ==> (#[trigger] self.nodes@[i]).0 < id,
            forall|i: int| r <= i < self.nodes@.len() ==> (#[trigger] self.nodes@[i]).0 >= id,
    {
        let n = self.nodes.len();
        let mut p: usize = 0;
        while p < n
            invariant
                0 <= p <= n,
                n == self.nodes@.len(),
                self.wf(),
                forall|i: int| 0 <= i < p ==> (#[trigger] self.nodes@[i]).0 < id,
            decreases n - p,
        {
            let pair = &self.nodes[p];
            if pair.0 >= id {
                assert forall|i: int| p <= i < self.nodes@.len() implies (#[trigger] self.nodes@[i]).0
                    >= id by {
                    if i > p {
                        assert(self.nodes@[p as int].0 < self.nodes@[i].0);
                    }
                }
                return p;
            }
            p = p + 1;
        }
        p
    }

    /// The position of the entry for node `id`, when the node exists.
    fn find_key(&self, id: u32) -> (r: Option<usize>)
        requires
            self.wf(),
        ensures
            match r {
                Some(i) => i < self.nodes@.len() && self.nodes@[i as int].0 == id
                    && self@.dom().contains(id),
                None => !self@.dom().contains(id),
            },
    {
        let p = self.key_position(id);
        if p < self.nodes.len() {
            let pair = &self.nodes[p];
            if pair.0 == id {
                proof {
                    self.lemma_view_entry(p as int);
                }
                return Some(p);
            }
        }
        proof {
            if has_key(self.nodes@, id) {
                let i = choose|i: int|
                    0 <= i < self.nodes@.len() && (#[trigger] self.nodes@[i]).0 == id;
                assert(self.nodes@[i].0 == id);
            }
        }
        None
    }
}

/// Whether the list holds `x`.
fn list_contains(l: &Vec<u32>, x: u32) -> (r: bool)
    ensures
        r == l@.contains(x),
{
    let n = l.len();
    let mut i: usize = 0;
    while i < n
        invariant
            0 <= i <= n,
            n == l@.len(),
            forall|j: int| 0 <= j < i ==> l@[j] != x,
        decreases n - i,
    {
        if l[i] == x {
            return true;
        }
        i = i + 1;
    }
    false
}

/// A copy of the list, element by element.
fn copy_list(l: &Vec<u32>) -> (r: Vec<u32>)
    ensures
        r@ == l@,
{
    let n = l.len();
    let mut out: Vec<u32> = Vec::new();
    let mut i: usize = 0;
    while i < n
        invariant
            0 <= i <= n,
            n == l@.len(),
            out@ == l@.subrange(0, i as int),
        decreases n - i,
    {
        out.push(l[i]);
        assert(out@ =~= l@.subrange(0, i + 1));
        i = i + 1;
    }
    assert(out@ =~= l@);
    out
}

/// Inserts `x` into a strictly ascending list, keeping it ascending; a value
/// already present is left alone.
fn insert_sorted(l: &mut Vec<u32>, x: u32)
    requires
        list_sorted(old(l)@),
    ensures
        list_sorted(final(l)@),
        forall|e: u32| #[trigger] final(l)@.contains(e) == (old(l)@.contains(e) || e == x),
{
    let n = l.len();
    let mut p: usize = 0;
    while p < n && l[p] < x
        invariant
            0 <= p <= n,
            n == l@.len(),
            l@ == old(l)@,
            list_sorted(l@),
            forall|i: int| 0 <= i < p ==> l@[i] < x,
        decreases n - p,
    {
        p = p + 1;
    }
    assert(forall|i: int| 0 <= i < p ==> l@[i] < x);
    if p < n {
        assert(l@[p as int] >= x);
        if l[p] == x {
            proof {
                assert(l@.contains(x));
            }
            return;
        }
    }
    assert forall|i: int| p <= i < l@.len() implies l@[i] > x by {
        if i > p {
            assert(l@[p as int] < l@[i]);
        }
    }
    let ghost before = l@;
    l.insert(p, x);
    proof {
        assert(l@ == before.insert(p as int, x));
        assert forall|i: int, j: int| 0 <= i < j < l@.len() implies l@[i] < l@[j] by {
            assert(l@[i] == (if i < p {
                before[i]
            } else if i == p {
                x
            } else {
                before[i - 1]
            }));
            assert(l@[j] == (if j < p {
                before[j]
            } else if j == p {
                x
            } else {
                before[j - 1]
            }));
        }
        assert forall|e: u32| #[trigger] l@.contains(e) == (before.contains(e) || e == x) by {
            if l@.contains(e) {
                let i = choose|i: int| 0 <= i < l@.len() && l@[i] == e;
                if i < p {
                    assert(before[i] == e);
                } else if i == p {
                    assert(e == x);
                } else {
                    assert(before[i - 1] == e);
                }
            }
            if before.contains(e) {
                let i = choose|i: int| 0 <= i < before.len() && before[i] == e;
                if i < p {
                    assert(l@[i] == e);
                } else {
                    assert(l@[i + 1] == e);
                }
            }
            if e == x {
                assert(l@[p as int] == e);
            }
        }
    }
}

/// Removes `x` from a strictly ascending list, keeping it ascending; a value
/// not present leaves the list alone.
fn remove_sorted(l: &mut Vec<u32>, x: u32)
    requires
        list_sorted(old(l)@),
    ensures
        list_sorted(final(l)@),
        forall|e: u32| #[trigger] final(l)@.contains(e) == (old(l)@.contains(e) && e != x),
{
    let n = l.len();
    let mut p: usize = 0;
    while p < n
        invariant
            0 <= p <= n,
            n == l@.len(),
            l@ == old(l)@,
            list_sorted(l@),
            forall|i: int| 0 <= i < p ==> l@[i] != x,
        decreases n - p,
    {
        if l[p] == x {
            let ghost before = l@;
            l.remove(p);
            proof {
                assert(l@ == before.remove(p as int));
                assert forall|i: int, j: int| 0 <= i < j < l@.len() implies l@[i] < l@[j] by {
                    assert(l@[i] == (if i < p {
                        before[i]
                    } else {
                        before[i + 1]
                    }));
                    assert(l@[j] == (if j < p {
                        before[j]
                    } else {
                        before[j + 1]
                    }));
                }
                assert forall|e: u32| #[trigger] l@.contains(e) == (before.contains(e) && e != x) by {
                    if l@.contains(e) {
                        let i = choose|i: int| 0 <= i < l@.len() && l@[i] == e;
                        if i < p {
                            assert(before[i] == e);
                            assert(e != x);
                        } else {
                            assert(before[i + 1] == e);
                            assert(before[p as int] < before[i + 1]);
                        }
                    }
                    if before.contains(e) && e != x {
                        let i = choose|i: int| 0 <= i < before.len() && before[i] == e;
                        if i < p {
                            assert(l@[i] == e);
                        } else {
                            assert(i != p);
                            assert(l@[i - 1] == e);
                        }
                    }
                }
            }
            return;
        }
        p = p + 1;
    }
    proof {
        if l@.contains(x) {
            let i = choose|i: int| 0 <= i < l@.len() && l@[i] == x;
            assert(l@[i] == x);
        }
    }
}


/// Replacing the edge list of one entry, key unchanged, changes exactly that
/// node's destination set in the model.
proof fn lemma_map_update(pre: Seq<(u32, Vec<u32>)>, post: Seq<(u32, Vec<u32>)>, i: int)
    requires
        keys_sorted(pre),
        0 <= i < pre.len(),
        post.len() == pre.len(),
        post[i].0 == pre[i].0,
        forall|j: int| 0 <= j < pre.len() && j != i ==> post[j] == pre[j],
    ensures
        keys_sorted(post),
        forall|k: u32| map_of(post).dom().contains(k) == map_of(pre).dom().contains(k),
        forall|k: u32|
            map_of(pre).dom().contains(k) && k != pre[i].0 ==> map_of(post)[k] == map_of(pre)[k],
        forall|e: u32| #[trigger] map_of(post)[pre[i].0].contains(e) == post[i].1@.contains(e),
{
    assert forall|p: int, q: int| 0 <= p < q < post.len() implies (#[trigger] post[p]).0
        < (#[trigger] post[q]).0 by {
        assert(pre[p].0 < pre[q].0);
        assert(post[p].0 == pre[p].0 && post[q].0 == pre[q].0);
    }
    assert forall|k: u32| has_key(post, k) == has_key(pre, k) by {
        if has_key(pre, k) {
            let j = choose|j: int| 0 <= j < pre.len() && (#[trigger] pre[j]).0 == k;
            assert((#[trigger] post[j]).0 == k);
        }
        if has_key(post, k) {
            let j = choose|j: int| 0 <= j < post.len() && (#[trigger] post[j]).0 == k;
            assert((#[trigger] pre[j]).0 == k);
        }
    }
    assert forall|k: u32|
        map_of(pre).dom().contains(k) && k != pre[i].0 implies map_of(post)[k] == map_of(pre)[k] by {
        let j = choose|j: int| 0 <= j < pre.len() && (#[trigger] pre[j]).0 == k;
        lemma_key_index(pre, j);
        lemma_key_index(post, j);
        assert(j != i);
        assert(entry_set(post, k) =~= entry_set(pre, k));
    }
    assert forall|e: u32| #[trigger] map_of(post)[pre[i].0].contains(e) == post[i].1@.contains(
        e,
    ) by {
        lemma_key_index(post, i);
        assert(entry_set(post, pre[i].0).contains(e) == post[i].1@.contains(e));
    }
}

/// Inserting a fresh entry at its sorted position adds exactly that node to
/// the model.
proof fn lemma_map_insert_entry(pre: Seq<(u32, Vec<u32>)>, post: Seq<(u32, Vec<u32>)>, p: int)
    requires
        keys_sorted(pre),
        0 <= p <= pre.len(),
        post == pre.insert(p, post[p]),
        forall|i: int| 0 <= i < p ==> (#[trigger] pre[i]).0 < post[p].0,
        forall|i: int| p <= i < pre.len() ==> (#[trigger] pre[i]).0 > post[p].0,
    ensures
        keys_sorted(post),
        forall|k: u32|
            map_of(post).dom().contains(k) == (map_of(pre).dom().contains(k) || k == post[p].0),
        forall|k: u32|
            map_of(pre).dom().contains(k) && k != post[p].0 ==> map_of(post)[k] == map_of(pre)[k],
        forall|e: u32| #[trigger] map_of(post)[post[p].0].contains(e) == post[p].1@.contains(e),
{
    let key = post[p].0;
    assert(post.len() == pre.len() + 1);
    assert(forall|i: int| 0 <= i < p ==> post[i] == pre[i]);
    assert(forall|i: int| p < i < post.len() ==> post[i] == pre[i - 1]);
    assert forall|i: int, j: int| 0 <= i < j < post.len() implies (#[trigger] post[i]).0
        < (#[trigger] post[j]).0 by {
        if i < p && j < p {
        } else if i < p && j == p {
        } else if i < p && j > p {
            assert(pre[i].0 < pre[j - 1].0 || i == j - 1);
        } else if i == p {
            assert(post[j] == pre[j - 1]);
        } else {
            assert(pre[i - 1].0 < pre[j - 1].0);
        }
    }
    assert forall|k: u32| has_key(post, k) == (has_key(pre, k) || k == key) by {
        if has_key(pre, k) {
            let j = choose|j: int| 0 <= j < pre.len() && (#[trigger] pre[j]).0 == k;
            if j < p {
                assert((#[trigger] post[j]).0 == k);
            } else {
                assert((#[trigger] post[j + 1]).0 == k);
            }
        }
        if k == key {
            assert((#[trigger] post[p]).0 == k);
        }
        if has_key(post, k) && k != key {
            let j = choose|j: int| 0 <= j < post.len() && (#[trigger] post[j]).0 == k;
            assert(j != p);
            if j < p {
                assert((#[trigger] pre[j]).0 == k);
            } else {
                assert((#[trigger] pre[j - 1]).0 == k);
            }
        }
    }
    assert forall|k: u32|
        map_of(pre).dom().contains(k) && k != key implies map_of(post)[k] == map_of(pre)[k] by {
        let j = choose|j: int| 0 <= j < pre.len() && (#[trigger] pre[j]).0 == k;
        lemma_key_index(pre, j);
        if j < p {
            lemma_key_index(post, j);
            assert(post[j] == pre[j]);
        } else {
            lemma_key_index(post, j + 1);
            assert(post[j + 1] == pre[j]);
        }
        assert(entry_set(post, k) =~= entry_set(pre, k));
    }
    assert forall|e: u32| #[trigger] map_of(post)[key].contains(e) == post[p].1@.contains(e) by {
        lemma_key_index(post, p);
        assert(entry_set(post, key).contains(e) == post[p].1@.contains(e));
    }
}

/// Removing one entry removes exactly that node from the model.
proof fn lemma_map_remove_entry(pre: Seq<(u32, Vec<u32>)>, post: Seq<(u32, Vec<u32>)>, p: int)
    requires
        keys_sorted(pre),
        0 <= p < pre.len(),
        post == pre.remove(p),
    ensures
        keys_sorted(post),
        forall|k: u32|
            map_of(post).dom().contains(k) == (map_of(pre).dom().contains(k) && k != pre[p].0),
        forall|k: u32|
            map_of(pre).dom().contains(k) && k != pre[p].0 ==> map_of(post)[k] == map_of(pre)[k],
{
    let key = pre[p].0;
    assert(forall|i: int| 0 <= i < p ==> post[i] == pre[i]);
    assert(forall|i: int| p <= i < post.len() ==> post[i] == pre[i + 1]);
    assert forall|i: int, j: int| 0 <= i < j < post.len() implies (#[trigger] post[i]).0
        < (#[trigger] post[j]).0 by {
        if i < p && j < p {
        } else if i < p {
            assert(pre[i].0 < pre[j + 1].0);
        } else {
            assert(pre[i + 1].0 < pre[j + 1].0);
        }
    }
    assert forall|k: u32| has_key(post, k) == (has_key(pre, k) && k != key) by {
        if has_key(post, k) {
            let j = choose|j: int| 0 <= j < post.len() && (#[trigger] post[j]).0 == k;
            if j < p {
                assert((#[trigger] pre[j]).0 == k);
                assert(pre[j].0 < pre[p as int].0);
            } else {
                assert((#[trigger] pre[j + 1]).0 == k);
                assert(pre[p as int].0 < pre[j + 1].0);
            }
        }
        if has_key(pre, k) && k != key {
            let j = choose|j: int| 0 <= j < pre.len() && (#[trigger] pre[j]).0 == k;
            assert(j != p);
            if j < p {
                assert((#[trigger] post[j]).0 == k);
            } else {
                assert((#[trigger] post[j - 1]).0 == k);
            }
        }
    }
    assert forall|k: u32|
        map_of(pre).dom().contains(k) && k != key implies map_of(post)[k] == map_of(pre)[k] by {
        let j = choose|j: int| 0 <= j < pre.len() && (#[trigger] pre[j]).0 == k;
        lemma_key_index(pre, j);
        if j < p {
            lemma_key_index(post, j);
            assert(post[j] == pre[j]);
        } else {
            lemma_key_index(post, j - 1);
            assert(post[j - 1] == pre[j]);
        }
        assert(entry_set(post, k) =~= entry_set(pre, k));
    }
}


impl Graph {
    /// Ensures node `id` exists, creating it with an empty edge set when new.
    fn with_node(&mut self, id: u32)
        requires
            old(self).wf(),
        ensures
            final(self).wf(),
            final(self)@ == old(self)@.insert(id, succs_or_empty(old(self)@, id)),
            final(self)@.dom().contains(id),
            old(self)@.dom().contains(id) ==> final(self).node_count() == old(self).node_count(),
            !old(self)@.dom().contains(id) ==> final(self).node_count() == old(self).node_count() + 1,
    {
        let p = self.key_position(id);
        if p < self.nodes.len() {
            let pair = &self.nodes[p];
            if pair.0 == id {
                proof {
                    self.lemma_view_entry(p as int);
                    assert(self@ =~~= old(self)@.insert(id, succs_or_empty(old(self)@, id)));
                }
                return ;
            }
        }
        proof {
            if has_key(self.nodes@, id) {
                let i = choose|i: int|
                    0 <= i < self.nodes@.len() && (#[trigger] self.nodes@[i]).0 == id;
                assert(self.nodes@[i].0 == id);
            }
        }
        let ghost pre = self.nodes@;
        self.nodes.insert(p, (id, Vec::new()));
        proof {
            assert(self.nodes@[p as int].0 == id);
            assert forall|i: int| p <= i < pre.len() implies (#[trigger] pre[i]).0 > id by {
                assert(pre[i].0 >= id);
                if pre[i].0 == id {
                    assert(has_key(pre, id));
                }
            }
            lemma_map_insert_entry(pre, self.nodes@, p as int);
            assert forall|i: int, e: u32|
                0 <= i < self.nodes@.len() && #[trigger] self.nodes@[i].1@.contains(e) implies has_key(
                self.nodes@,
                e,
            ) by {
                if i < p {
                    assert(self.nodes@[i] == pre[i]);
                    assert(pre[i].1@.contains(e));
                } else if i == p {
                    assert(self.nodes@[i].1@ =~= Seq::<u32>::empty());
                } else {
                    assert(self.nodes@[i] == pre[i - 1]);
                    assert(pre[i - 1].1@.contains(e));
                }
                assert(has_key(pre, e));
                let w = choose|w: int| 0 <= w < pre.len() && (#[trigger] pre[w]).0 == e;
                if w < p {
                    assert((#[trigger] self.nodes@[w]).0 == e);
                } else {
                    assert(self.nodes@[w + 1] == pre[w]);
                    assert((#[trigger] self.nodes@[w + 1]).0 == e);
                }
            }
            assert forall|i: int| 0 <= i < self.nodes@.len() implies list_sorted(
                (#[trigger] self.nodes@[i]).1@,
            ) && !self.nodes@[i].1@.contains(self.nodes@[i].0) by {
                if i < p {
                    assert(self.nodes@[i] == pre[i]);
                } else if i > p {
                    assert(self.nodes@[i] == pre[i - 1]);
                } else {
                    assert(self.nodes@[i].1@ =~= Seq::<u32>::empty());
                }
            }
            assert(self@ =~~= old(self)@.insert(id, succs_or_empty(old(self)@, id))) by {
                assert(forall|k: u32|
                    map_of(self.nodes@).dom().contains(k) == (map_of(pre).dom().contains(k) || k
                        == id));
                assert forall|e: u32| !(#[trigger] self@[id].contains(e)) by {
                    assert(self@[id].contains(e) == self.nodes@[p as int].1@.contains(e));
                }
                assert(succs_or_empty(old(self)@, id) =~= Set::<u32>::empty());
            }
        }
    }

    /// Adds the edge `from -> to` between two existing nodes.
    fn add_edge(&mut self, from: u32, to: u32)
        requires
            old(self).wf(),
            old(self)@.dom().contains(from),
            old(self)@.dom().contains(to),
            from != to,
        ensures
            final(self).wf(),
            final(self)@ == old(self)@.insert(from, old(self)@[from].insert(to)),
            final(self).node_count() == old(self).node_count(),
    {
        let fi = self.find_key(from).unwrap();
        let ghost pre = self.nodes@;
        let mut pair = self.nodes.remove(fi);
        insert_sorted(&mut pair.1, to);
        self.nodes.insert(fi, pair);
        proof {
            assert(self.nodes@ =~= pre.update(fi as int, (pre[fi as int].0, pair.1)));
            lemma_map_update(pre, self.nodes@, fi as int);
            self.lemma_wf_after_update(pre, fi as int, to);
            old(self).lemma_view_entry(fi as int);
            assert(self@ =~~= old(self)@.insert(from, old(self)@[from].insert(to))) by {
                assert forall|e: u32| #[trigger] self@[from].contains(e) == old(self)@[from].insert(
                    to,
                ).contains(e) by {
                    assert(self@[from].contains(e) == self.nodes@[fi as int].1@.contains(e));
                    assert(self.nodes@[fi as int].1@.contains(e) == (pre[fi as int].1@.contains(e)
                        || e == to));
                }
            }
        }
    }

    /// The updated entry keeps the adjacency list well-formed when the new
    /// list is ascending, free of the key itself, and adds at most `extra`,
    /// an existing key.
    proof fn lemma_wf_after_update(&self, pre: Seq<(u32, Vec<u32>)>, i: int, extra: u32)
        requires
            wf_adjacency(pre),
            0 <= i < pre.len(),
            self.nodes@.len() == pre.len(),
            self.nodes@[i].0 == pre[i].0,
            forall|j: int| 0 <= j < pre.len() && j != i ==> self.nodes@[j] == pre[j],
            list_sorted(self.nodes@[i].1@),
            has_key(pre, extra),
            forall|e: u32|
                #[trigger] self.nodes@[i].1@.contains(e) ==> pre[i].1@.contains(e) || e == extra,
            !self.nodes@[i].1@.contains(self.nodes@[i].0),
        ensures
            self.wf(),
    {
        lemma_map_update(pre, self.nodes@, i);
        assert forall|j: int, e: u32|
            0 <= j < self.nodes@.len() && #[trigger] self.nodes@[j].1@.contains(e) implies has_key(
            self.nodes@,
            e,
        ) by {
            if j != i {
                assert(pre[j].1@.contains(e));
            } else {
                assert(pre[i].1@.contains(e) || e == extra);
            }
            assert(has_key(pre, e));
            let w = choose|w: int| 0 <= w < pre.len() && (#[trigger] pre[w]).0 == e;
            if w == i {
                assert((#[trigger] self.nodes@[w]).0 == e);
            } else {
                assert((#[trigger] self.nodes@[w]).0 == e);
            }
        }
        assert forall|j: int| 0 <= j < self.nodes@.len() implies list_sorted(
            (#[trigger] self.nodes@[j]).1@,
        ) && !self.nodes@[j].1@.contains(self.nodes@[j].0) by {
            if j != i {
                assert(self.nodes@[j] == pre[j]);
            }
        }
    }

    /// Connects `from` to `to`.  Rejected when `from == to`, leaving the
    /// graph unchanged; otherwise both nodes are created as needed, the edge
    /// is added, and the call succeeds.  Connecting an existing edge again
    /// is a no-op that still succeeds.
    pub fn connect(&mut self, from: u32, to: u32) -> (r: bool)
        requires
            old(self).wf(),
        ensures
            final(self).wf(),
            from == to ==> r == false && *final(self) == *old(self),
            from != to ==> r == true && final(self)@ == old(self)@.insert(
                to,
                succs_or_empty(old(self)@, to),
            ).insert(from, succs_or_empty(old(self)@, from).insert(to)),
            from != to ==> final(self)@.dom() == old(self)@.dom().insert(from).insert(to),
            old(self)@.dom().contains(from) && old(self)@.dom().contains(to) ==> final(self).node_count() == old(self).node_count(),
            final(self).node_count() <= old(self).node_count() + 2,
    {
        if from == to {
            return false;
        }
        self.with_node(to);
        self.with_node(from);
        self.add_edge(from, to);
        proof {
            let m0 = old(self)@;
            let m1 = m0.insert(to, succs_or_empty(m0, to));
            let m2 = m1.insert(from, succs_or_empty(m1, from));
            assert(succs_or_empty(m1, from) == succs_or_empty(m0, from));
            assert(self@ == m2.insert(from, m2[from].insert(to)));
            assert(m2[from] == succs_or_empty(m0, from));
            assert(self@ =~~= m0.insert(to, succs_or_empty(m0, to)).insert(
                from,
                succs_or_empty(m0, from).insert(to),
            ));
            assert(self@.dom() =~= m0.dom().insert(from).insert(to));
        }
        true
    }

    /// Removes the edge `from -> to` when node `from` exists; does nothing
    /// otherwise, and never creates or removes a node.
    pub fn disconnect(&mut self, from: u32, to: u32)
        requires
            old(self).wf(),
        ensures
            final(self).wf(),
            old(self)@.dom().contains(from) ==> final(self)@ == old(self)@.insert(
                from,
                old(self)@[from].remove(to),
            ),
            !old(self)@.dom().contains(from) ==> *final(self) == *old(self),
            final(self).node_count() == old(self).node_count(),
    {
        let fi_opt = self.find_key(from);
        if let Some(fi) = fi_opt {
            let ghost pre = self.nodes@;
            let mut pair = self.nodes.remove(fi);
            remove_sorted(&mut pair.1, to);
            self.nodes.insert(fi, pair);
            proof {
                assert(self.nodes@ =~= pre.update(fi as int, (pre[fi as int].0, pair.1)));
                lemma_map_update(pre, self.nodes@, fi as int);
                assert forall|e: u32|
                    #[trigger] self.nodes@[fi as int].1@.contains(e) implies pre[fi as int].1@.contains(
                    e,
                ) || e == to by {}
                self.lemma_wf_after_update(pre, fi as int, pre[fi as int].0);
                old(self).lemma_view_entry(fi as int);
                assert(self@ =~~= old(self)@.insert(from, old(self)@[from].remove(to))) by {
                    assert forall|e: u32| #[trigger] self@[from].contains(e) == old(self)@[from].remove(to).contains(e) by {
                        assert(self@[from].contains(e) == self.nodes@[fi as int].1@.contains(e));
                        assert(self.nodes@[fi as int].1@.contains(e) == (pre[fi as int].1@.contains(
                            e,
                        ) && e != to));
                    }
                }
            }
        }
    }

    /// The outgoing edge set of node `id`, ascending, or absent when the
    /// node does not exist.
    pub fn from(&self, id: u32) -> (r: Option<Vec<u32>>)
        requires
            self.wf(),
        ensures
            match r {
                Some(l) => self@.dom().contains(id) && list_sorted(l@) && (forall|e: u32|
                    #[trigger] l@.contains(e) == self@[id].contains(e)),
                None => !self@.dom().contains(id),
            },
    {
        match self.find_key(id) {
            Some(i) => {
                let pair = &self.nodes[i];
                let out = copy_list(&pair.1);
                proof {
                    self.lemma_view_entry(i as int);
                }
                Some(out)
            },
            None => None,
        }
    }

    /// Every node with an edge pointing at `id`, in ascending order.
    pub fn to(&self, id: u32) -> (r: Vec<u32>)
        requires
            self.wf(),
        ensures
            list_sorted(r@),
            forall|y: u32| #[trigger] r@.contains(y) == has_edge(self@, y, id),
    {
        let n = self.nodes.len();
        let mut out: Vec<u32> = Vec::new();
        let mut i: usize = 0;
        while i < n
            invariant
                0 <= i <= n,
                n == self.nodes@.len(),
                self.wf(),
                list_sorted(out@),
                forall|y: u32|
                    #[trigger] out@.contains(y) == (exists|j: int|
                        0 <= j < i && (#[trigger] self.nodes@[j]).0 == y && self.nodes@[j].1@.contains(
                            id,
                        )),
            decreases n - i,
        {
            let pair = &self.nodes[i];
            if list_contains(&pair.1, id) {
                let ghost pre = out@;
                proof {
                    assert forall|p: int| 0 <= p < pre.len() implies pre[p]
                        < self.nodes@[i as int].0 by {
                        assert(pre.contains(pre[p]));
                        let j = choose|j: int|
                            0 <= j < i && (#[trigger] self.nodes@[j]).0 == pre[p]
                                && self.nodes@[j].1@.contains(id);
                        assert(self.nodes@[j].0 < self.nodes@[i as int].0);
                    }
                }
                out.push(pair.0);
                proof {
                    assert forall|y: u32| #[trigger] out@.contains(y) == (exists|j: int|
                        0 <= j < i + 1 && (#[trigger] self.nodes@[j]).0 == y
                            && self.nodes@[j].1@.contains(id)) by {
                        if out@.contains(y) {
                            let q = choose|q: int| 0 <= q < out@.len() && out@[q] == y;
                            if q < pre.len() {
                                assert(pre.contains(y));
                            } else {
                                assert(y == self.nodes@[i as int].0);
                                assert((#[trigger] self.nodes@[i as int]).0 == y
                                    && self.nodes@[i as int].1@.contains(id));
                            }
                        }
                        if exists|j: int|
                            0 <= j < i + 1 && (#[trigger] self.nodes@[j]).0 == y
                                && self.nodes@[j].1@.contains(id) {
                            let j = choose|j: int|
                                0 <= j < i + 1 && (#[trigger] self.nodes@[j]).0 == y
                                    && self.nodes@[j].1@.contains(id);
                            if j < i {
                                assert(pre.contains(y));
                                let q = choose|q: int| 0 <= q < pre.len() && pre[q] == y;
                                assert(out@[q] == y);
                            } else {
                                assert(out@[pre.len() as int] == y);
                            }
                        }
                    }
                    assert forall|p: int, q: int| 0 <= p < q < out@.len() implies out@[p]
                        < out@[q] by {
                        if q < pre.len() {
                        } else {
                            assert(out@[q] == self.nodes@[i as int].0);
                            assert(pre[p] < self.nodes@[i as int].0);
                        }
                    }
                }
            }
            i = i + 1;
        }
        proof {
            assert forall|y: u32| #[trigger] out@.contains(y) == has_edge(self@, y, id) by {
                if out@.contains(y) {
                    let j = choose|j: int|
                        0 <= j < n && (#[trigger] self.nodes@[j]).0 == y && self.nodes@[j].1@.contains(
                            id,
                        );
                    self.lemma_view_entry(j);
                }
                if has_edge(self@, y, id) {
                    let j = choose|j: int| 0 <= j < self.nodes@.len() && (#[trigger] self.nodes@[j]).0 == y;
                    self.lemma_view_entry(j);
                    assert(self.nodes@[j].1@.contains(id));
                }
            }
        }
        out
    }

    /// Whether the graph holds the edge `a -> b`.
    fn edge_exists(&self, a: u32, b: u32) -> (r: bool)
        requires
            self.wf(),
        ensures
            r == has_edge(self@, a, b),
    {
        match self.find_key(a) {
            Some(i) => {
                let pair = &self.nodes[i];
                let c = list_contains(&pair.1, b);
                proof {
                    self.lemma_view_entry(i as int);
                }
                c
            },
            None => false,
        }
    }

    /// Whether any node has an edge pointing at `id`.
    fn has_pred(&self, id: u32) -> (r: bool)
        requires
            self.wf(),
        ensures
            r == exists|y: u32| #[trigger] has_edge(self@, y, id),
    {
        let n = self.nodes.len();
        let mut i: usize = 0;
        while i < n
            invariant
                0 <= i <= n,
                n == self.nodes@.len(),
                self.wf(),
                forall|j: int| 0 <= j < i ==> !(#[trigger] self.nodes@[j]).1@.contains(id),
            decreases n - i,
        {
            let pair = &self.nodes[i];
            if list_contains(&pair.1, id) {
                proof {
                    self.lemma_view_entry(i as int);
                    assert(has_edge(self@, self.nodes@[i as int].0, id));
                }
                return true;
            }
            i = i + 1;
        }
        proof {
            if exists|y: u32| #[trigger] has_edge(self@, y, id) {
                let y = choose|y: u32| #[trigger] has_edge(self@, y, id);
                let j = choose|j: int| 0 <= j < self.nodes@.len() && (#[trigger] self.nodes@[j]).0 == y;
                self.lemma_view_entry(j);
                assert(self.nodes@[j].1@.contains(id));
            }
        }
        false
    }

    /// Removes the entry of node `k`; the node must have no incoming edges.
    fn remove_entry(&mut self, k: u32)
        requires
            old(self).wf(),
            old(self)@.dom().contains(k),
            forall|y: u32| !(#[trigger] has_edge(old(self)@, y, k)),
        ensures
            final(self).wf(),
            final(self)@ == old(self)@.remove(k),
            final(self).node_count() + 1 == old(self).node_count(),
    {
        let fi = self.find_key(k).unwrap();
        let ghost pre = self.nodes@;
        self.nodes.remove(fi);
        proof {
            assert(self.nodes@ == pre.remove(fi as int));
            lemma_map_remove_entry(pre, self.nodes@, fi as int);
            assert forall|j: int, e: u32|
                0 <= j < self.nodes@.len() && #[trigger] self.nodes@[j].1@.contains(e) implies has_key(
                self.nodes@,
                e,
            ) by {
                let pj = if j < fi as int { j } else { j + 1 };
                assert(pre[pj].1@.contains(e));
                assert(has_key(pre, e));
                if e == k {
                    old(self).lemma_view_entry(pj);
                    assert(has_edge(old(self)@, pre[pj].0, k));
                }
                assert(map_of(self.nodes@).dom().contains(e));
            }
            assert forall|j: int| 0 <= j < self.nodes@.len() implies list_sorted(
                (#[trigger] self.nodes@[j]).1@,
            ) && !self.nodes@[j].1@.contains(self.nodes@[j].0) by {
                let pj = if j < fi as int { j } else { j + 1 };
                assert(self.nodes@[j] == pre[pj]);
            }
            assert(self@ =~~= old(self)@.remove(k));
        }
    }
}


/// Wraps an index one step past the end back to the start.
pub open spec fn wrap(i: int, n: int) -> int {
    if i < n {
        i
    } else {
        i - n
    }
}

/// Step `j` of the closed walk `c` is an edge of `m`.
pub open spec fn cycle_edge_at(m: Map<u32, Set<u32>>, c: Seq<u32>, j: int) -> bool {
    has_edge(m, c[j], c[wrap(j + 1, c.len() as int)])
}

/// Every consecutive pair of `c` (the last wrapping to the first) is an
/// edge of `m`.
pub open spec fn cycle_edges_in(m: Map<u32, Set<u32>>, c: Seq<u32>) -> bool {
    forall|j: int| 0 <= j < c.len() ==> #[trigger] cycle_edge_at(m, c, j)
}

/// A walk through `m`: at least one node, every node present, every
/// consecutive pair an edge.
pub open spec fn is_walk(m: Map<u32, Set<u32>>, w: Seq<u32>) -> bool {
    &&& w.len() >= 1
    &&& forall|i: int| 0 <= i < w.len() ==> m.dom().contains(#[trigger] w[i])
    &&& forall|i: int| 0 <= i < w.len() - 1 ==> has_edge(m, #[trigger] w[i], w[i + 1])
}

/// A cycle of `m` as a sequence: at least two distinct nodes, consecutive
/// edges, and an edge from the last back to the first.
pub open spec fn is_cycle_seq(m: Map<u32, Set<u32>>, c: Seq<u32>) -> bool {
    &&& c.len() >= 2
    &&& c.no_duplicates()
    &&& is_walk(m, c)
    &&& has_edge(m, c.last(), c[0])
}

/// Whether `m` holds any cycle.
pub open spec fn has_cycle(m: Map<u32, Set<u32>>) -> bool {
    exists|c: Seq<u32>| #[trigger] is_cycle_seq(m, c)
}

/// A node with no outgoing and no incoming edges.
pub open spec fn isolated(m: Map<u32, Set<u32>>, k: u32) -> bool {
    &&& m.dom().contains(k)
    &&& forall|e: u32| !m[k].contains(e)
    &&& forall|y: u32| !(#[trigger] has_edge(m, y, k))
}

/// Every cycle that discovery reports passes verification: a cycle
/// sequence of `m` has all of its consecutive pairs, the last wrapping to
/// the first, among the edges of `m`.
pub proof fn lemma_cycle_seq_edges(m: Map<u32, Set<u32>>, c: Seq<u32>)
    requires
        is_cycle_seq(m, c),
    ensures
        cycle_edges_in(m, c),
{
    assert forall|j: int| 0 <= j < c.len() implies #[trigger] cycle_edge_at(m, c, j) by {
        if j == c.len() - 1 {
            assert(c[j] == c.last());
        }
    }
}

/// Adding the edge `from -> to` changes the model edge-wise in exactly
/// one place, and adds at most the two endpoints to the domain.
proof fn lemma_connect_edge_effect(
    m0: Map<u32, Set<u32>>,
    m1: Map<u32, Set<u32>>,
    from: u32,
    to: u32,
)
    requires
        from != to,
        m1 == m0.insert(to, succs_or_empty(m0, to)).insert(
            from,
            succs_or_empty(m0, from).insert(to),
        ),
    ensures
        forall|x: u32, y: u32|
            #[trigger] has_edge(m1, x, y) == (has_edge(m0, x, y) || (x == from && y == to)),
        forall|k: u32|
            #[trigger] m1.dom().contains(k) == (m0.dom().contains(k) || k == from || k == to),
{
    assert forall|x: u32, y: u32|
        #[trigger] has_edge(m1, x, y) == (has_edge(m0, x, y) || (x == from && y == to)) by {
        if x == from {
            assert(m1[x] == succs_or_empty(m0, from).insert(to));
        } else if x == to {
            assert(m1[x] == succs_or_empty(m0, to));
        }
    }
}

impl Graph {
    /// Verifies that every consecutive pair of the cycle (wrapping from the
    /// last element back to the first) is an edge of this graph.
    pub fn check_cycle(&self, cycle: &Cycle) -> (r: bool)
        requires
            self.wf(),
            cycle.wf(),
        ensures
            r == cycle_edges_in(self@, cycle@),
    {
        let s = cycle.slice();
        let n = s.len();
        let mut i: usize = 0;
        while i < n
            invariant
                0 <= i <= n,
                n == cycle@.len(),
                n >= 2,
                s@ == cycle@,
                self.wf(),
                forall|j: int| 0 <= j < i ==> #[trigger] cycle_edge_at(self@, cycle@, j),
            decreases n - i,
        {
            let from = s[i];
            let to = if i + 1 < n {
                s[i + 1]
            } else {
                s[0]
            };
            if !self.edge_exists(from, to) {
                assert(!cycle_edge_at(self@, cycle@, i as int));
                return false;
            }
            assert(cycle_edge_at(self@, cycle@, i as int));
            i = i + 1;
        }
        true
    }

    /// Removes every node that has no outgoing and no incoming edges.
    pub fn cleanup(&mut self)
        requires
            old(self).wf(),
        ensures
            final(self).wf(),
            forall|k: u32|
                #[trigger] final(self)@.dom().contains(k) == (old(self)@.dom().contains(k)
                    && !isolated(old(self)@, k)),
            forall|k: u32|
                #[trigger] final(self)@.dom().contains(k) ==> final(self)@[k] == old(self)@[k],
    {
        let ghost m0 = self@;
        let mut doomed: Vec<u32> = Vec::new();
        let n = self.nodes.len();
        let mut i: usize = 0;
        while i < n
            invariant
                0 <= i <= n,
                *self == *old(self),
                self.wf(),
                n == self.nodes@.len(),
                m0 == self@,
                doomed@.no_duplicates(),
                forall|y: u32|
                    #[trigger] doomed@.contains(y) == (exists|j: int|
                        0 <= j < i && (#[trigger] self.nodes@[j]).0 == y && isolated(m0, y)),
            decreases n - i,
        {
            let pair = &self.nodes[i];
            let key = pair.0;
            let lone = pair.1.is_empty() && !self.has_pred(key);
            proof {
                self.lemma_view_entry(i as int);
                if pair.1.len() == 0 {
                    assert(forall|e: u32| !self@[key].contains(e));
                }
                if lone {
                    assert(isolated(m0, key));
                } else {
                    if pair.1.len() > 0 {
                        assert(self@[key].contains(pair.1@[0]));
                        assert(!isolated(m0, key));
                    } else {
                        assert(!isolated(m0, key));
                    }
                }
            }
            if lone {
                let ghost pre = doomed@;
                proof {
                    if pre.contains(key) {
                        let j = choose|j: int|
                            0 <= j < i && (#[trigger] self.nodes@[j]).0 == key && isolated(m0, key);
                        assert(self.nodes@[j].0 < self.nodes@[i as int].0);
                    }
                }
                doomed.push(key);
                proof {
                    assert forall|y: u32| #[trigger] doomed@.contains(y) == (exists|j: int|
                        0 <= j < i + 1 && (#[trigger] self.nodes@[j]).0 == y && isolated(m0, y)) by {
                        if doomed@.contains(y) {
                            let q = choose|q: int| 0 <= q < doomed@.len() && doomed@[q] == y;
                            if q < pre.len() {
                                assert(pre.contains(y));
                            } else {
                                assert(y == key);
                                assert((#[trigger] self.nodes@[i as int]).0 == y && isolated(m0, y));
                            }
                        }
                        if exists|j: int|
                            0 <= j < i + 1 && (#[trigger] self.nodes@[j]).0 == y && isolated(m0, y) {
                            let j = choose|j: int|
                                0 <= j < i + 1 && (#[trigger] self.nodes@[j]).0 == y && isolated(
                                    m0,
                                    y,
                                );
                            if j < i {
                                assert(pre.contains(y));
                                let q = choose|q: int| 0 <= q < pre.len() && pre[q] == y;
                                assert(doomed@[q] == y);
                            } else {
                                assert(doomed@[pre.len() as int] == y);
                            }
                        }
                    }
                }
            } else {
                proof {
                    if doomed@.contains(key) {
                        assert(isolated(m0, key));
                    }
                }
            }
            i = i + 1;
        }
        proof {
            assert forall|y: u32| #[trigger] doomed@.contains(y) == (m0.dom().contains(y)
                && isolated(m0, y)) by {
                if m0.dom().contains(y) && isolated(m0, y) {
                    let j = choose|j: int|
                        0 <= j < self.nodes@.len() && (#[trigger] self.nodes@[j]).0 == y;
                    assert((#[trigger] self.nodes@[j]).0 == y && isolated(m0, y));
                }
            }
        }
        let d = doomed.len();
        let mut q: usize = 0;
        while q < d
            invariant
                0 <= q <= d,
                d == doomed@.len(),
                self.wf(),
                doomed@.no_duplicates(),
                forall|y: u32|
                    #[trigger] doomed@.contains(y) == (m0.dom().contains(y) && isolated(m0, y)),
                forall|k: u32|
                    #[trigger] self@.dom().contains(k) == (m0.dom().contains(k)
                        && !doomed@.subrange(0, q as int).contains(k)),
                forall|k: u32| #[trigger] self@.dom().contains(k) ==> self@[k] == m0[k],
            decreases d - q,
        {
            let k = doomed[q];
            proof {
                assert(doomed@.contains(doomed@[q as int]));
                if doomed@.subrange(0, q as int).contains(k) {
                    let w = choose|w: int| 0 <= w < q && doomed@.subrange(0, q as int)[w] == k;
                    assert(doomed@[w] == doomed@[q as int]);
                }
                assert(self@.dom().contains(k));
                assert forall|y: u32| !(#[trigger] has_edge(self@, y, k)) by {
                    if has_edge(self@, y, k) {
                        assert(self@[y] == m0[y]);
                        assert(has_edge(m0, y, k));
                        assert(isolated(m0, k));
                    }
                }
            }
            let ghost mid = self@;
            self.remove_entry(k);
            proof {
                let t = doomed@.subrange(0, q as int);
                let t1 = doomed@.subrange(0, q + 1);
                assert(t1 =~= t.push(doomed@[q as int]));
                assert forall|k2: u32| #[trigger] self@.dom().contains(k2) == (m0.dom().contains(k2)
                    && !t1.contains(k2)) by {
                    assert(t1.contains(k2) == (t.contains(k2) || k2 == k)) by {
                        if t1.contains(k2) {
                            let w = choose|w: int| 0 <= w < t1.len() && t1[w] == k2;
                            if w < q {
                                assert(t[w] == k2);
                            } else {
                                assert(k2 == k);
                            }
                        }
                        if t.contains(k2) {
                            let w = choose|w: int| 0 <= w < t.len() && t[w] == k2;
                            assert(t1[w] == k2);
                        }
                        if k2 == k {
                            assert(t1[q as int] == k2);
                        }
                    }
                    assert(self@.dom().contains(k2) == (mid.dom().contains(k2) && k2 != k));
                }
            }
            q = q + 1;
        }
        proof {
            assert(doomed@.subrange(0, d as int) =~= doomed@);
        }
    }

    /// The pair `(sources, sinks)`: nodes with no incoming edge, and nodes
    /// with no outgoing edge, each in ascending order.  A fully isolated
    /// node appears in both.
    #[verifier::rlimit(100)]
    pub fn find_ends(&self) -> (r: (Vec<u32>, Vec<u32>))
        requires
            self.wf(),
        ensures
            list_sorted(r.0@),
            list_sorted(r.1@),
            forall|k: u32|
                #[trigger] r.0@.contains(k) == (self@.dom().contains(k) && (forall|y: u32|
                    !(#[trigger] has_edge(self@, y, k)))),
            forall|k: u32|
                #[trigger] r.1@.contains(k) == (self@.dom().contains(k) && (forall|e: u32|
                    !self@[k].contains(e))),
    {
        let n = self.nodes.len();
        let mut starts: Vec<u32> = Vec::new();
        let mut ends: Vec<u32> = Vec::new();
        let mut i: usize = 0;
        while i < n
            invariant
                0 <= i <= n,
                n == self.nodes@.len(),
                self.wf(),
                list_sorted(starts@),
                list_sorted(ends@),
                forall|y: u32|
                    #[trigger] starts@.contains(y) == (exists|j: int|
                        0 <= j < i && (#[trigger] self.nodes@[j]).0 == y && (forall|z: u32|
                            !(#[trigger] has_edge(self@, z, y)))),
                forall|y: u32|
                    #[trigger] ends@.contains(y) == (exists|j: int|
                        0 <= j < i && (#[trigger] self.nodes@[j]).0 == y && (forall|e: u32|
                            !self@[y].contains(e))),
            decreases n - i,
        {
            let pair = &self.nodes[i];
            let key = pair.0;
            proof {
                self.lemma_view_entry(i as int);
            }
            if pair.1.is_empty() {
                let ghost pre = ends@;
                proof {
                    assert(forall|e: u32| !self@[key].contains(e));
                    assert forall|p: int| 0 <= p < pre.len() implies pre[p] < key by {
                        assert(pre.contains(pre[p]));
                        let j = choose|j: int|
                            0 <= j < i && (#[trigger] self.nodes@[j]).0 == pre[p] && (forall|e: u32|
                                !self@[pre[p]].contains(e));
                        assert(self.nodes@[j].0 < self.nodes@[i as int].0);
                    }
                }
                ends.push(key);
                proof {
                    assert forall|y: u32| #[trigger] ends@.contains(y) == (exists|j: int|
                        0 <= j < i + 1 && (#[trigger] self.nodes@[j]).0 == y && (forall|e: u32|
                            !self@[y].contains(e))) by {
                        if ends@.contains(y) {
                            let q = choose|q: int| 0 <= q < ends@.len() && ends@[q] == y;
                            if q < pre.len() {
                                assert(pre.contains(y));
                            } else {
                                assert(y == key);
                                assert((#[trigger] self.nodes@[i as int]).0 == y);
                            }
                        }
                        if exists|j: int|
                            0 <= j < i + 1 && (#[trigger] self.nodes@[j]).0 == y && (forall|e: u32|
                                !self@[y].contains(e)) {
                            let j = choose|j: int|
                                0 <= j < i + 1 && (#[trigger] self.nodes@[j]).0 == y && (forall|
                                    e: u32,
                                |
                                    !self@[y].contains(e));
                            if j < i {
                                assert(pre.contains(y));
                                let q = choose|q: int| 0 <= q < pre.len() && pre[q] == y;
                                assert(ends@[q] == y);
                            } else {
                                assert(ends@[pre.len() as int] == y);
                            }
                        }
                    }
                }
            } else {
                proof {
                    assert(self@[key].contains(self.nodes@[i as int].1@[0]));
                    assert forall|y: u32| #[trigger] ends@.contains(y) == (exists|j: int|
                        0 <= j < i + 1 && (#[trigger] self.nodes@[j]).0 == y && (forall|e: u32|
                            !self@[y].contains(e))) by {
                        if !ends@.contains(y) && exists|j: int|
                            0 <= j < i + 1 && (#[trigger] self.nodes@[j]).0 == y && (forall|e: u32|
                                !self@[y].contains(e)) {
                            let j = choose|j: int|
                                0 <= j < i + 1 && (#[trigger] self.nodes@[j]).0 == y && (forall|
                                    e: u32,
                                |
                                    !self@[y].contains(e));
                            assert(j == i);
                            assert(self@[y].contains(self.nodes@[i as int].1@[0]));
                        }
                    }
                }
            }
            if !self.has_pred(key) {
                let ghost pre = starts@;
                proof {
                    assert forall|p: int| 0 <= p < pre.len() implies pre[p] < key by {
                        assert(pre.contains(pre[p]));
                        let j = choose|j: int|
                            0 <= j < i && (#[trigger] self.nodes@[j]).0 == pre[p] && (forall|z: u32|
                                !(#[trigger] has_edge(self@, z, pre[p])));
                        assert(self.nodes@[j].0 < self.nodes@[i as int].0);
                    }
                }
                starts.push(key);
                proof {
                    assert forall|y: u32| #[trigger] starts@.contains(y) == (exists|j: int|
                        0 <= j < i + 1 && (#[trigger] self.nodes@[j]).0 == y && (forall|z: u32|
                            !(#[trigger] has_edge(self@, z, y)))) by {
                        if starts@.contains(y) {
                            let q = choose|q: int| 0 <= q < starts@.len() && starts@[q] == y;
                            if q < pre.len() {
                                assert(pre.contains(y));
                            } else {
                                assert(y == key);
                                assert((#[trigger] self.nodes@[i as int]).0 == y);
                            }
                        }
                        if exists|j: int|
                            0 <= j < i + 1 && (#[trigger] self.nodes@[j]).0 == y && (forall|z: u32|
                                !(#[trigger] has_edge(self@, z, y))) {
                            let j = choose|j: int|
                                0 <= j < i + 1 && (#[trigger] self.nodes@[j]).0 == y && (forall|
                                    z: u32,
                                |
                                    !(#[trigger] has_edge(self@, z, y)));
                            if j < i {
                                assert(pre.contains(y));
                                let q = choose|q: int| 0 <= q < pre.len() && pre[q] == y;
                                assert(starts@[q] == y);
                            } else {
                                assert(starts@[pre.len() as int] == y);
                            }
                        }
                    }
                }
            } else {
                proof {
                    assert forall|y: u32| #[trigger] starts@.contains(y) == (exists|j: int|
                        0 <= j < i + 1 && (#[trigger] self.nodes@[j]).0 == y && (forall|z: u32|
                            !(#[trigger] has_edge(self@, z, y)))) by {
                        if !starts@.contains(y) && exists|j: int|
                            0 <= j < i + 1 && (#[trigger] self.nodes@[j]).0 == y && (forall|z: u32|
                                !(#[trigger] has_edge(self@, z, y))) {
                            let j = choose|j: int|
                                0 <= j < i + 1 && (#[trigger] self.nodes@[j]).0 == y && (forall|
                                    z: u32,
                                |
                                    !(#[trigger] has_edge(self@, z, y)));
                            assert(j == i);
                        }
                    }
                }
            }
            i = i + 1;
        }
        proof {
            assert forall|k: u32| #[trigger] starts@.contains(k) == (self@.dom().contains(k) && (
            forall|y: u32| !(#[trigger] has_edge(self@, y, k)))) by {
                if starts@.contains(k) {
                    let j = choose|j: int|
                        0 <= j < n && (#[trigger] self.nodes@[j]).0 == k && (forall|z: u32|
                            !(#[trigger] has_edge(self@, z, k)));
                    self.lemma_view_entry(j);
                }
                if self@.dom().contains(k) && (forall|y: u32| !(#[trigger] has_edge(self@, y, k))) {
                    let j = choose|j: int|
                        0 <= j < self.nodes@.len() && (#[trigger] self.nodes@[j]).0 == k;
                    assert((#[trigger] self.nodes@[j]).0 == k && (forall|z: u32|
                        !(#[trigger] has_edge(self@, z, k))));
                }
            }
            assert forall|k: u32| #[trigger] ends@.contains(k) == (self@.dom().contains(k) && (
            forall|e: u32| !self@[k].contains(e))) by {
                if ends@.contains(k) {
                    let j = choose|j: int|
                        0 <= j < n && (#[trigger] self.nodes@[j]).0 == k && (forall|e: u32|
                            !self@[k].contains(e));
                    self.lemma_view_entry(j);
                }
                if self@.dom().contains(k) && (forall|e: u32| !self@[k].contains(e)) {
                    let j = choose|j: int|
                        0 <= j < self.nodes@.len() && (#[trigger] self.nodes@[j]).0 == k;
                    assert((#[trigger] self.nodes@[j]).0 == k && (forall|e: u32|
                        !self@[k].contains(e)));
                }
            }
        }
        (starts, ends)
    }
}


/// A walk that starts with the stack `s` and whose last node has an edge
/// back into the walk.  Such a walk exists exactly when the search along
/// `s` can still run into a cycle.
spec fn closing_walk(m: Map<u32, Set<u32>>, s: Seq<u32>, t: Seq<u32>) -> bool {
    &&& is_walk(m, t)
    &&& t.len() >= s.len()
    &&& t.subrange(0, s.len() as int) == s
    &&& exists|i: int| 0 <= i < t.len() && m[t.last()].contains(#[trigger] t[i])
}

/// Whether any walk extending the stack `s` closes on itself.
spec fn danger(m: Map<u32, Set<u32>>, s: Seq<u32>) -> bool {
    exists|t: Seq<u32>| #[trigger] closing_walk(m, s, t)
}

/// When no successor of the stack's last node lies on the stack and every
/// extended stack is free of closing walks, the stack itself is free of
/// closing walks.
proof fn lemma_no_danger_step(m: Map<u32, Set<u32>>, s: Seq<u32>)
    requires
        is_walk(m, s),
        forall|b: u32|
            #[trigger] has_edge(m, s.last(), b) ==> !s.contains(b) && !danger(m, s.push(b)),
    ensures
        !danger(m, s),
{
    if danger(m, s) {
        let t = choose|t: Seq<u32>| #[trigger] closing_walk(m, s, t);
        assert(closing_walk(m, s, t));
        let i = choose|i: int| 0 <= i < t.len() && m[t.last()].contains(#[trigger] t[i]);
        assert(forall|j: int| 0 <= j < s.len() ==> t.subrange(0, s.len() as int)[j] == #[trigger] t[j]);
        if t.len() == s.len() {
            assert(t =~= s);
            assert(has_edge(m, s.last(), s[i]));
            assert(s.contains(s[i]));
            assert(false);
        } else {
            let b = t[s.len() as int];
            assert(t[s.len() - 1] == s[s.len() - 1]);
            assert(has_edge(m, t[s.len() - 1], t[s.len() as int]));
            assert(has_edge(m, s.last(), b));
            assert(t.subrange(0, s.len() as int + 1) =~= s.push(b));
            assert(closing_walk(m, s.push(b), t));
            assert(danger(m, s.push(b)));
            assert(false);
        }
    }
}

/// A stack free of closing walks leaves its last node free of closing
/// walks on its own.
proof fn lemma_danger_head(m: Map<u32, Set<u32>>, s: Seq<u32>)
    requires
        is_walk(m, s),
        !danger(m, s),
    ensures
        !danger(m, seq![s.last()]),
{
    if danger(m, seq![s.last()]) {
        let t = choose|t: Seq<u32>| #[trigger] closing_walk(m, seq![s.last()], t);
        assert(closing_walk(m, seq![s.last()], t));
        let i = choose|i: int| 0 <= i < t.len() && m[t.last()].contains(#[trigger] t[i]);
        assert(t.subrange(0, 1)[0] == t[0]);
        assert(t[0] == s.last());
        let t2 = s + t.subrange(1, t.len() as int);
        assert(t2.len() == s.len() + t.len() - 1);
        assert(forall|j: int| 0 <= j < s.len() ==> #[trigger] t2[j] == s[j]);
        assert(forall|j: int| s.len() <= j < t2.len() ==> #[trigger] t2[j] == t[j - s.len() + 1]);
        assert(is_walk(m, t2)) by {
            assert forall|j: int| 0 <= j < t2.len() implies m.dom().contains(#[trigger] t2[j]) by {
                if j >= s.len() {
                    assert(t2[j] == t[j - s.len() + 1]);
                }
            }
            assert forall|j: int| 0 <= j < t2.len() - 1 implies has_edge(
                m,
                #[trigger] t2[j],
                t2[j + 1],
            ) by {
                if j < s.len() - 1 {
                } else if j == s.len() - 1 {
                    assert(t2[j] == s.last());
                    assert(t2[j + 1] == t[1]);
                    assert(has_edge(m, t[0], t[1]));
                } else {
                    assert(t2[j] == t[j - s.len() + 1]);
                    assert(t2[j + 1] == t[j - s.len() + 2]);
                    assert(has_edge(m, t[j - s.len() + 1], t[j - s.len() + 2]));
                }
            }
        }
        assert(t2.subrange(0, s.len() as int) =~= s);
        assert(t2.last() == t.last()) by {
            if t.len() == 1 {
                assert(t2 =~= s);
            } else {
                assert(t2[t2.len() - 1] == t[t.len() - 1]);
            }
        }
        let i2 = if i == 0 {
            s.len() - 1
        } else {
            s.len() - 1 + i
        };
        assert(t2[i2] == t[i]) by {
            if i == 0 {
                assert(t2[s.len() - 1] == s.last());
            }
        }
        assert(m[t2.last()].contains(t2[i2]));
        assert(closing_walk(m, s, t2));
        assert(danger(m, s));
        assert(false);
    }
}

/// A cycle through `c[0]` is itself a closing walk from `c[0]`.
proof fn lemma_cycle_danger(m: Map<u32, Set<u32>>, c: Seq<u32>)
    requires
        is_cycle_seq(m, c),
    ensures
        danger(m, seq![c[0]]),
{
    assert(c.subrange(0, 1) =~= seq![c[0]]);
    assert(m[c.last()].contains(c[0]));
    assert(0 <= 0 < c.len() && m[c.last()].contains(c[0]));
    assert(closing_walk(m, seq![c[0]], c));
}

impl Graph {
    /// A duplicate-free sequence of nodes of this graph is no longer than
    /// the node count.
    proof fn lemma_distinct_nodes_bound(&self, w: Seq<u32>)
        requires
            self.wf(),
            w.no_duplicates(),
            forall|x: u32| #[trigger] w.contains(x) ==> self@.dom().contains(x),
        ensures
            w.len() <= self.nodes@.len(),
    {
        broadcast use vstd::seq_lib::seq_to_set_is_finite;
        broadcast use vstd::set::group_set_axioms;

        let keys = Seq::new(self.nodes@.len(), |i: int| self.nodes@[i].0);
        assert(keys.no_duplicates()) by {
            assert forall|i: int, j: int|
                0 <= i < keys.len() && 0 <= j < keys.len() && i != j implies keys[i] != keys[j] by {
                if i < j {
                    assert(self.nodes@[i].0 < self.nodes@[j].0);
                } else {
                    assert(self.nodes@[j].0 < self.nodes@[i].0);
                }
            }
        }
        w.unique_seq_to_set();
        keys.unique_seq_to_set();
        assert forall|x: u32| w.to_set().contains(x) implies keys.to_set().contains(x) by {
            assert(w.contains(x));
            assert(self@.dom().contains(x));
            let i = choose|i: int| 0 <= i < self.nodes@.len() && (#[trigger] self.nodes@[i]).0 == x;
            assert(keys[i] == x);
            assert(keys.contains(x));
        }
        vstd::set_lib::lemma_len_subset(w.to_set(), keys.to_set());
    }

    /// Explores every walk that extends `ancestors`, reporting the first
    /// cycle it runs into: a successor that already lies on the stack closes
    /// a cycle, and the stack slice from that successor onward is it.
    #[verifier::loop_isolation(false)]
    fn search_subtree(&self, ancestors: &mut Vec<u32>, visited: &mut Vec<u32>) -> (r: Option<Cycle>)
        requires
            self.wf(),
            old(ancestors)@.len() >= 1,
            old(ancestors)@.len() <= self.nodes@.len(),
            old(ancestors)@.no_duplicates(),
            is_walk(self@, old(ancestors)@),
        ensures
            forall|x: u32|
                old(visited)@.contains(x) ==> #[trigger] final(visited)@.contains(x),
            match r {
                Some(c) => c.wf() && is_cycle_seq(self@, c@),
                None => {
                    &&& final(ancestors)@ == old(ancestors)@
                    &&& !danger(self@, old(ancestors)@)
                    &&& forall|x: u32|
                        #[trigger] final(visited)@.contains(x) && !old(visited)@.contains(x)
                            ==> !danger(self@, seq![x])
                },
            },
        decreases self.nodes@.len() - old(ancestors)@.len(),
    {
        let ghost alpha = old(ancestors)@;
        let last = ancestors[ancestors.len() - 1];
        proof {
            assert(alpha[alpha.len() - 1] == alpha.last());
            assert(self@.dom().contains(last));
        }
        let li_opt = self.find_key(last);
        let li = li_opt.unwrap();
        let deg = {
            let pair = &self.nodes[li];
            pair.1.len()
        };
        proof {
            self.lemma_view_entry(li as int);
        }
        let ghost v0 = old(visited)@;
        let mut j: usize = 0;
        while j < deg
            invariant
                0 <= j <= deg,
                self.wf(),
                li < self.nodes@.len(),
                self.nodes@[li as int].0 == alpha.last(),
                deg == self.nodes@[li as int].1@.len(),
                ancestors@ == alpha,
                alpha.len() >= 1,
                alpha.len() <= self.nodes@.len(),
                alpha.no_duplicates(),
                is_walk(self@, alpha),
                forall|x: u32| v0.contains(x) ==> #[trigger] visited@.contains(x),
                forall|x: u32|
                    #[trigger] visited@.contains(x) && !v0.contains(x) ==> !danger(
                        self@,
                        seq![x],
                    ),
                forall|q: int|
                    0 <= q < j ==> !alpha.contains(#[trigger] self.nodes@[li as int].1@[q])
                        && !danger(self@, alpha.push(self.nodes@[li as int].1@[q])),
            decreases deg - j,
        {
            let c = {
                let pair = &self.nodes[li];
                pair.1[j]
            };
            proof {
                assert(self.nodes@[li as int].1@.contains(c));
                assert(self@[alpha.last()].contains(c));
                assert(has_edge(self@, alpha.last(), c));
                assert(self@.dom().contains(c));
            }
            match position_in(ancestors, c) {
                Some(idx) => {
                    let ghost sub = alpha.subrange(idx as int, alpha.len() as int);
                    let mut cyc: Vec<u32> = Vec::new();
                    let mut w: usize = idx;
                    while w < ancestors.len()
                        invariant
                            idx <= w <= alpha.len(),
                            ancestors@ == alpha,
                            idx < alpha.len(),
                            cyc@ == alpha.subrange(idx as int, w as int),
                        decreases alpha.len() - w,
                    {
                        let x = ancestors[w];
                        cyc.push(x);
                        assert(cyc@ =~= alpha.subrange(idx as int, w + 1));
                        w = w + 1;
                    }
                    proof {
                        assert(cyc@ == sub);
                        assert(alpha[idx as int] == c);
                        if idx + 1 == alpha.len() {
                            assert(c == alpha.last());
                            assert(self@[c].contains(c));
                            assert(!self.nodes@[li as int].1@.contains(self.nodes@[li as int].0));
                            assert(false);
                        }
                        assert(sub.len() >= 2);
                        assert(sub.no_duplicates()) by {
                            assert forall|a: int, b: int|
                                0 <= a < sub.len() && 0 <= b < sub.len() && a != b implies sub[a]
                                != sub[b] by {
                                assert(sub[a] == alpha[idx + a]);
                                assert(sub[b] == alpha[idx + b]);
                            }
                        }
                        assert(is_cycle_seq(self@, sub)) by {
                            assert forall|q: int| 0 <= q < sub.len() implies self@.dom().contains(
                                #[trigger] sub[q],
                            ) by {
                                assert(sub[q] == alpha[idx + q]);
                            }
                            assert forall|q: int| 0 <= q < sub.len() - 1 implies has_edge(
                                self@,
                                #[trigger] sub[q],
                                sub[q + 1],
                            ) by {
                                assert(sub[q] == alpha[idx + q]);
                                assert(sub[q + 1] == alpha[idx + q + 1]);
                            }
                            assert(sub.last() == alpha.last());
                            assert(sub[0] == c);
                            assert(has_edge(self@, sub.last(), sub[0]));
                        }
                    }
                    let cycle_opt = Cycle::new(cyc);
                    proof {
                        assert(cycle_opt.is_some());
                    }
                    let cycle = cycle_opt.unwrap();
                    proof {
                        assert(forall|x: u32|
                            v0.contains(x) ==> #[trigger] visited@.contains(x));
                        let k = crate::cycle::min_index(sub);
                        assert(crate::cycle::is_strict_min(sub, k)) by {
                            crate::cycle::lemma_min_index_is_strict_min(sub);
                        }
                        lemma_cycle_seq_rotation(self@, sub, k);
                    }
                    return Some(cycle);
                },
                None => {
                    let ghost v_head = visited@;
                    ancestors.push(c);
                    visited.push(c);
                    proof {
                        lemma_push_contains(v_head, c);
                        assert(ancestors@ == alpha.push(c));
                        assert(ancestors@.no_duplicates()) by {
                            assert forall|a: int, b: int|
                                0 <= a < ancestors@.len() && 0 <= b < ancestors@.len() && a != b
                                implies ancestors@[a] != ancestors@[b] by {
                                if a < alpha.len() && b < alpha.len() {
                                } else if b == alpha.len() {
                                    if ancestors@[a] == c {
                                        assert(alpha[a] == c);
                                        assert(alpha.contains(c));
                                    }
                                } else {
                                    if ancestors@[b] == c {
                                        assert(alpha[b] == c);
                                        assert(alpha.contains(c));
                                    }
                                }
                            }
                        }
                        assert(is_walk(self@, ancestors@)) by {
                            assert forall|q: int|
                                0 <= q < ancestors@.len() implies self@.dom().contains(
                                #[trigger] ancestors@[q],
                            ) by {
                                if q < alpha.len() {
                                    assert(ancestors@[q] == alpha[q]);
                                }
                            }
                            assert forall|q: int| 0 <= q < ancestors@.len() - 1 implies has_edge(
                                self@,
                                #[trigger] ancestors@[q],
                                ancestors@[q + 1],
                            ) by {
                                if q < alpha.len() - 1 {
                                    assert(ancestors@[q] == alpha[q]);
                                    assert(ancestors@[q + 1] == alpha[q + 1]);
                                } else {
                                    assert(ancestors@[q] == alpha.last());
                                    assert(ancestors@[q + 1] == c);
                                }
                            }
                        }
                        self.lemma_distinct_nodes_bound(ancestors@);
                        assert(ancestors@.len() == alpha.len() + 1);
                        assert(ancestors@.len() <= self.nodes@.len());
                    }
                    let ghost v_before = visited@;
                    let res = self.search_subtree(ancestors, visited);
                    match res {
                        Some(cy) => {
                            return Some(cy);
                        },
                        None => {
                            proof {
                                lemma_danger_head(self@, alpha.push(c));
                                assert(alpha.push(c).last() == c);
                                assert(!danger(self@, seq![c]));
                            }
                            ancestors.pop();
                            proof {
                                assert(ancestors@ =~= alpha);
                                assert forall|x: u32|
                                    #[trigger] visited@.contains(x) && !v0.contains(x)
                                    implies !danger(self@, seq![x]) by {
                                    if v_before.contains(x) {
                                        assert(v_head.push(c).contains(x));
                                        if x == c {
                                        } else {
                                            assert(v_head.contains(x));
                                        }
                                    } else {
                                        assert(visited@.contains(x) && !v_before.contains(x));
                                    }
                                }
                            }
                        },
                    }
                },
            }
            j = j + 1;
        }
        proof {
            assert forall|b: u32| #[trigger] has_edge(self@, alpha.last(), b) implies !alpha.contains(
                b,
            ) && !danger(self@, alpha.push(b)) by {
                assert(self@[alpha.last()].contains(b));
                assert(self.nodes@[li as int].1@.contains(b));
                let q = choose|q: int|
                    0 <= q < self.nodes@[li as int].1@.len() && self.nodes@[li as int].1@[q] == b;
                assert(!alpha.contains(#[trigger] self.nodes@[li as int].1@[q]));
            }
            lemma_no_danger_step(self@, alpha);
        }
        None
    }

    /// Finds a cycle in the graph, walking nodes in ascending order, or
    /// reports that the graph is acyclic.  A cycle is returned exactly when
    /// one exists.
    pub fn find_cycle(&self) -> (r: Option<Cycle>)
        requires
            self.wf(),
        ensures
            match r {
                Some(c) => c.wf() && is_cycle_seq(self@, c@),
                None => !has_cycle(self@),
            },
    {
        let mut visited: Vec<u32> = Vec::new();
        let n = self.nodes.len();
        let mut i: usize = 0;
        while i < n
            invariant
                0 <= i <= n,
                n == self.nodes@.len(),
                self.wf(),
                forall|x: u32| #[trigger] visited@.contains(x) ==> !danger(self@, seq![x]),
                forall|j: int| 0 <= j < i ==> visited@.contains((#[trigger] self.nodes@[j]).0),
            decreases n - i,
        {
            let id = {
                let pair = &self.nodes[i];
                pair.0
            };
            if !list_contains(&visited, id) {
                let ghost v_pre = visited@;
                visited.push(id);
                proof {
                    lemma_push_contains(v_pre, id);
                }
                let mut ancestors: Vec<u32> = Vec::new();
                ancestors.push(id);
                proof {
                    self.lemma_view_entry(i as int);
                    assert(ancestors@ =~= seq![id]);
                    assert(is_walk(self@, ancestors@));
                }
                let ghost v_mid = visited@;
                let res = self.search_subtree(&mut ancestors, &mut visited);
                if let Some(cy) = res {
                    return Some(cy);
                }
                proof {
                    assert(!danger(self@, seq![id]));
                    assert forall|x: u32| #[trigger] visited@.contains(x) implies !danger(
                        self@,
                        seq![x],
                    ) by {
                        if v_mid.contains(x) {
                            if x == id {
                            } else {
                                assert(v_pre.contains(x));
                            }
                        }
                    }
                    assert forall|j: int|
                        0 <= j < i + 1 implies visited@.contains((#[trigger] self.nodes@[j]).0) by {
                        if j < i {
                            assert(v_pre.contains(self.nodes@[j].0));
                        } else {
                            assert(v_mid.contains(id));
                        }
                    }
                }
            }
            i = i + 1;
        }
        proof {
            if has_cycle(self@) {
                let c = choose|c: Seq<u32>| #[trigger] is_cycle_seq(self@, c);
                assert(is_cycle_seq(self@, c));
                assert(self@.dom().contains(c[0]));
                let j = choose|j: int|
                    0 <= j < self.nodes@.len() && (#[trigger] self.nodes@[j]).0 == c[0];
                assert(visited@.contains(c[0]));
                lemma_cycle_danger(self@, c);
                assert(false);
            }
        }
        None
    }
}

/// A rotation of a cycle sequence is again a cycle sequence of the same
/// graph.
proof fn lemma_cycle_seq_rotation(m: Map<u32, Set<u32>>, c: Seq<u32>, k: int)
    requires
        is_cycle_seq(m, c),
        0 <= k <= c.len(),
    ensures
        is_cycle_seq(m, crate::cycle::rotated(c, k)),
{
    let n = c.len() as int;
    let r = crate::cycle::rotated(c, k);
    crate::cycle::lemma_rotated_index(c, k);
    crate::cycle::lemma_rotated_no_duplicates(c, k);
    assert forall|q: int| 0 <= q < r.len() implies m.dom().contains(#[trigger] r[q]) by {
        if q + k < n {
            assert(r[q] == c[q + k]);
        } else {
            assert(r[q] == c[q + k - n]);
        }
    }
    assert forall|q: int| 0 <= q < r.len() - 1 implies has_edge(m, #[trigger] r[q], r[q + 1]) by {
        if q + k < n - 1 {
            assert(r[q] == c[q + k] && r[q + 1] == c[q + k + 1]);
        } else if q + k == n - 1 {
            assert(r[q] == c[n - 1] && r[q + 1] == c[0]);
            assert(c[n - 1] == c.last());
        } else {
            assert(r[q] == c[q + k - n] && r[q + 1] == c[q + k + 1 - n]);
        }
    }
    assert(has_edge(m, r.last(), r[0])) by {
        if k == 0 || k == n {
            assert(r =~= c);
            assert(r.last() == c.last() && r[0] == c[0]);
        } else {
            assert(r[n - 1] == c[k - 1]);
            assert(r[0] == c[k]);
        }
    }
}

/// Membership in a sequence extended by one element.
proof fn lemma_push_contains(s: Seq<u32>, x: u32)
    ensures
        forall|y: u32| #[trigger] s.push(x).contains(y) == (s.contains(y) || y == x),
{
    assert forall|y: u32| #[trigger] s.push(x).contains(y) == (s.contains(y) || y == x) by {
        if s.push(x).contains(y) {
            let q = choose|q: int| 0 <= q < s.push(x).len() && s.push(x)[q] == y;
            if q < s.len() {
                assert(s[q] == y);
            }
        }
        if s.contains(y) {
            let q = choose|q: int| 0 <= q < s.len() && s[q] == y;
            assert(s.push(x)[q] == y);
        }
        assert(s.push(x)[s.len() as int] == x);
    }
}

/// The position of `x` in the vector, when present.
fn position_in(v: &Vec<u32>, x: u32) -> (r: Option<usize>)
    ensures
        match r {
            Some(i) => i < v@.len() && v@[i as int] == x,
            None => !v@.contains(x),
        },
{
    let n = v.len();
    let mut i: usize = 0;
    while i < n
        invariant
            0 <= i <= n,
            n == v@.len(),
            forall|j: int| 0 <= j < i ==> v@[j] != x,
        decreases n - i,
    {
        if v[i] == x {
            return Some(i);
        }
        i = i + 1;
    }
    proof {
        if v@.contains(x) {
            let j = choose|j: int| 0 <= j < v@.len() && v@[j] == x;
            assert(v@[j] == x);
        }
    }
    None
}


/// The outgoing set of a node `y` (other than the survivor `a`) after node
/// `b` collapses into `a`: an edge to `b` becomes an edge to `a`.
pub open spec fn redirected(m0: Map<u32, Set<u32>>, a: u32, b: u32, y: u32, e: u32) -> bool {
    if m0[y].contains(b) {
        (m0[y].contains(e) && e != b) || e == a
    } else {
        m0[y].contains(e)
    }
}

/// When every node of `m1` is a node of `m2` with the same outgoing set, a
/// cycle of `m1` is a cycle of `m2`.
proof fn lemma_cycle_preserved_submap(m1: Map<u32, Set<u32>>, m2: Map<u32, Set<u32>>)
    requires
        forall|k: u32| #[trigger] m1.dom().contains(k) ==> m2.dom().contains(k) && m1[k] == m2[k],
    ensures
        has_cycle(m1) ==> has_cycle(m2),
{
    if has_cycle(m1) {
        let c = choose|c: Seq<u32>| #[trigger] is_cycle_seq(m1, c);
        assert(is_cycle_seq(m1, c));
        assert(is_cycle_seq(m2, c)) by {
            assert forall|i: int| 0 <= i < c.len() implies m2.dom().contains(#[trigger] c[i]) by {
                assert(m1.dom().contains(c[i]));
            }
            assert forall|i: int| 0 <= i < c.len() - 1 implies has_edge(
                m2,
                #[trigger] c[i],
                c[i + 1],
            ) by {
                assert(has_edge(m1, c[i], c[i + 1]));
            }
            assert(has_edge(m1, c.last(), c[0]));
        }
    }
}

impl Graph {
    /// Merges node `b` into node `a`: every external edge of `b` becomes an
    /// edge of `a` and `b` is removed.  Rejected, leaving the graph
    /// unchanged, when the nodes are equal, either is absent, or they are
    /// not directly connected in at least one direction.
    #[verifier::loop_isolation(false)]
    #[verifier::rlimit(100)]
    pub fn collapse_pair(&mut self, a: u32, b: u32) -> (r: bool)
        requires
            old(self).wf(),
        ensures
            final(self).wf(),
            r == (a != b && old(self)@.dom().contains(a) && old(self)@.dom().contains(b) && (old(
                self,
            )@[a].contains(b) || old(self)@[b].contains(a))),
            !r ==> *final(self) == *old(self),
            r ==> (forall|k: u32|
                #[trigger] final(self)@.dom().contains(k) == (old(self)@.dom().contains(k) && k
                    != b)),
            r ==> (forall|e: u32|
                #[trigger] final(self)@[a].contains(e) == ((old(self)@[a].contains(e) || old(
                    self,
                )@[b].contains(e)) && e != a && e != b)),
            r ==> (forall|y: u32, e: u32|
                final(self)@.dom().contains(y) && y != a ==> (#[trigger] final(self)@[y].contains(
                    e,
                ) == redirected(old(self)@, a, b, y, e))),
            r ==> final(self).node_count() + 1 == old(self).node_count(),
    {
        if a == b {
            return false;
        }
        if self.find_key(a).is_none() {
            return false;
        }
        if self.find_key(b).is_none() {
            return false;
        }
        if !(self.edge_exists(a, b) || self.edge_exists(b, a)) {
            return false;
        }
        let ghost m0 = self@;
        let preds = self.to(b);
        proof {
            assert(preds@.no_duplicates()) by {
                assert forall|p: int, q: int|
                    0 <= p < preds@.len() && 0 <= q < preds@.len() && p != q implies preds@[p]
                    != preds@[q] by {
                    if p < q {
                        assert(preds@[p] < preds@[q]);
                    } else {
                        assert(preds@[q] < preds@[p]);
                    }
                }
            }
        }
        let np = preds.len();
        let mut i: usize = 0;
        while i < np
            invariant
                0 <= i <= np,
                np == preds@.len(),
                self.wf(),
                a != b,
                m0.dom().contains(a),
                m0.dom().contains(b),
                !m0[a].contains(a),
                !m0[b].contains(b),
                preds@.no_duplicates(),
                forall|y: u32| #[trigger] preds@.contains(y) == has_edge(m0, y, b),
                forall|k: u32| #[trigger] self@.dom().contains(k) == m0.dom().contains(k),
                self.node_count() == old(self).node_count(),
                forall|y: u32, e: u32|
                    self@.dom().contains(y) ==> #[trigger] self@[y].contains(e) == (if preds@.subrange(
                        0,
                        i as int,
                    ).contains(y) {
                        if y == a {
                            m0[a].contains(e) && e != b
                        } else {
                            (m0[y].contains(e) && e != b) || e == a
                        }
                    } else {
                        m0[y].contains(e)
                    }),
            decreases np - i,
        {
            let y = preds[i];
            let ghost mpre = self@;
            let ghost done = preds@.subrange(0, i as int);
            proof {
                assert(preds@.contains(y));
                assert(has_edge(m0, y, b));
                if done.contains(y) {
                    let w = choose|w: int| 0 <= w < i && done[w] == y;
                    assert(preds@[w] == preds@[i as int]);
                }
            }
            self.connect(y, a);
            self.disconnect(y, b);
            proof {
                let done1 = preds@.subrange(0, i + 1);
                assert(done1 =~= done.push(y));
                lemma_push_contains(done, y);
                assert forall|y2: u32, e: u32|
                    self@.dom().contains(y2) implies #[trigger] self@[y2].contains(e) == (if done1.contains(
                    y2,
                ) {
                    if y2 == a {
                        m0[a].contains(e) && e != b
                    } else {
                        (m0[y2].contains(e) && e != b) || e == a
                    }
                } else {
                    m0[y2].contains(e)
                }) by {
                    if y == a {
                        if y2 == a {
                            assert(self@[a].contains(e) == (mpre[a].contains(e) && e != b));
                        } else {
                            assert(self@[y2] == mpre[y2]);
                        }
                    } else {
                        if y2 == y {
                            assert(self@[y].contains(e) == ((mpre[y].contains(e) || e == a) && e
                                != b));
                            assert(mpre[y].contains(e) == m0[y].contains(e));
                            assert(a != b);
                        } else if y2 == a {
                            assert(self@[a].contains(e) == mpre[a].contains(e));
                        } else {
                            assert(self@[y2] == mpre[y2]);
                        }
                    }
                }
            }
            i = i + 1;
        }
        proof {
            assert(preds@.subrange(0, np as int) =~= preds@);
            assert forall|y: u32| !(#[trigger] has_edge(self@, y, b)) by {
                if has_edge(self@, y, b) {
                    assert(self@[y].contains(b));
                    if preds@.contains(y) {
                        assert(self@[y].contains(b) == false);
                    } else {
                        assert(self@[y].contains(b) == m0[y].contains(b));
                        assert(!has_edge(m0, y, b));
                    }
                }
            }
            assert(self@.dom().contains(b));
            assert(!preds@.contains(b));
            assert(self@[b].contains(b) == m0[b].contains(b));
        }
        let bi = self.find_key(b).unwrap();
        let bl = {
            let pair = &self.nodes[bi];
            copy_list(&pair.1)
        };
        proof {
            self.lemma_view_entry(bi as int);
            assert(forall|e: u32| #[trigger] bl@.contains(e) == self@[b].contains(e));
            assert(forall|e: u32| #[trigger] bl@.contains(e) == m0[b].contains(e));
        }
        let ghost mphase1 = self@;
        self.remove_entry(b);
        proof {
            assert(forall|k: u32|
                #[trigger] self@.dom().contains(k) == (m0.dom().contains(k) && k != b));
            assert(forall|y: u32|
                self@.dom().contains(y) ==> self@[y] == mphase1[y]);
        }
        let nb = bl.len();
        let mut t: usize = 0;
        while t < nb
            invariant
                0 <= t <= nb,
                nb == bl@.len(),
                self.wf(),
                a != b,
                m0.dom().contains(a),
                m0.dom().contains(b),
                !m0[a].contains(a),
                !m0[b].contains(b),
                forall|e: u32| #[trigger] bl@.contains(e) == m0[b].contains(e),
                forall|k: u32|
                    #[trigger] self@.dom().contains(k) == (m0.dom().contains(k) && k != b),
                self.node_count() + 1 == old(self).node_count(),
                forall|e: u32|
                    #[trigger] self@[a].contains(e) == ((m0[a].contains(e) && e != b) || (bl@.subrange(
                        0,
                        t as int,
                    ).contains(e) && e != a)),
                forall|y: u32, e: u32|
                    self@.dom().contains(y) && y != a ==> #[trigger] self@[y].contains(e)
                        == redirected(m0, a, b, y, e),
            decreases nb - t,
        {
            let to = bl[t];
            let ghost mpre = self@;
            let ghost done = bl@.subrange(0, t as int);
            proof {
                assert(bl@.contains(bl@[t as int]));
                assert(m0[b].contains(to));
                assert(to != b);
            }
            if to != a {
                proof {
                    assert(has_key(old(self).nodes@, b));
                    let w = key_index(old(self).nodes@, b);
                    old(self).lemma_view_entry(w);
                    assert(old(self).nodes@[w].1@.contains(to));
                    assert(has_key(old(self).nodes@, to));
                    assert(m0.dom().contains(to));
                    assert(self@.dom().contains(to));
                }
                self.connect(a, to);
            }
            proof {
                let done1 = bl@.subrange(0, t + 1);
                assert(done1 =~= done.push(to));
                lemma_push_contains(done, to);
                if to != a {
                    assert forall|e: u32| #[trigger] self@[a].contains(e) == ((m0[a].contains(e)
                        && e != b) || (done1.contains(e) && e != a)) by {
                        assert(self@[a].contains(e) == (mpre[a].contains(e) || e == to));
                    }
                    assert forall|y: u32, e: u32|
                        self@.dom().contains(y) && y != a implies #[trigger] self@[y].contains(e)
                        == redirected(m0, a, b, y, e) by {
                        assert(self@[y] == mpre[y]);
                    }
                } else {
                    assert forall|e: u32| #[trigger] self@[a].contains(e) == ((m0[a].contains(e)
                        && e != b) || (done1.contains(e) && e != a)) by {}
                }
            }
            t = t + 1;
        }
        proof {
            assert(bl@.subrange(0, nb as int) =~= bl@);
            assert forall|e: u32| #[trigger] self@[a].contains(e) == ((m0[a].contains(e) || m0[b].contains(
                e,
            )) && e != a && e != b) by {
                if e == a {
                    assert(!m0[a].contains(a));
                }
                if e == b {
                    assert(!m0[b].contains(b));
                }
            }
        }
        true
    }

    /// Collapses every node of the cycle into its first node, in cycle
    /// order.  Rejected, leaving the graph unchanged, when the cycle's edges
    /// are not all present.
    #[verifier::loop_isolation(false)]
    pub fn collapse_cycle(&mut self, cycle: &Cycle) -> (r: bool)
        requires
            old(self).wf(),
            cycle.wf(),
        ensures
            final(self).wf(),
            r == cycle_edges_in(old(self)@, cycle@),
            !r ==> *final(self) == *old(self),
            r ==> (forall|k: u32|
                #[trigger] final(self)@.dom().contains(k) == (old(self)@.dom().contains(k)
                    && !cycle@.subrange(1, cycle@.len() as int).contains(k))),
            r ==> final(self).node_count() + cycle@.len() == old(self).node_count() + 1,
    {
        if !self.check_cycle(cycle) {
            return false;
        }
        let ghost m0 = self@;
        let ghost c = cycle@;
        let s = cycle.slice();
        let first = s[0];
        let n = s.len();
        proof {
            assert forall|j: int| 0 <= j < c.len() - 1 implies has_edge(
                m0,
                #[trigger] c[j],
                c[j + 1],
            ) by {
                assert(cycle_edge_at(m0, c, j));
            }
            assert(cycle_edge_at(m0, c, c.len() - 1));
            assert(m0.dom().contains(c[0]));
        }
        let mut i: usize = 1;
        while i < n
            invariant
                1 <= i <= n,
                n == c.len(),
                s@ == c,
                c.len() >= 2,
                c.no_duplicates(),
                first == c[0],
                self.wf(),
                forall|j: int| 0 <= j < c.len() ==> m0.dom().contains(#[trigger] c[j]),
                forall|k: u32|
                    #[trigger] self@.dom().contains(k) == (m0.dom().contains(k) && !c.subrange(
                        1,
                        i as int,
                    ).contains(k)),
                self.node_count() + i == old(self).node_count() + 1,
                i < n ==> has_edge(self@, first, c[i as int]),
                forall|j: int|
                    i <= j < c.len() - 1 ==> has_edge(self@, #[trigger] c[j], c[j + 1]),
            decreases n - i,
        {
            let node = s[i];
            let ghost mpre = self@;
            let ghost done = c.subrange(1, i as int);
            proof {
                assert(c[i as int] != c[0]);
                if done.contains(node) {
                    let w = choose|w: int| 0 <= w < done.len() && done[w] == node;
                    assert(c[1 + w] == c[i as int]);
                }
                assert(self@.dom().contains(node));
                assert(!done.contains(first));
                assert(self@.dom().contains(first));
                assert(self@[first].contains(node));
            }
            let ok = self.collapse_pair(first, node);
            proof {
                assert(ok);
                let done1 = c.subrange(1, i + 1);
                assert(done1 =~= done.push(node));
                lemma_push_contains(done, node);
                if i + 1 < n {
                    assert(self@[first].contains(c[i + 1])) by {
                        assert(mpre[node].contains(c[i + 1]));
                        assert(c[i + 1] != first);
                        assert(c[i + 1] != node);
                    }
                    assert(has_edge(self@, first, c[i + 1]));
                }
                assert forall|j: int| i + 1 <= j < c.len() - 1 implies has_edge(
                    self@,
                    #[trigger] c[j],
                    c[j + 1],
                ) by {
                    assert(c[j] != first);
                    assert(c[j] != node);
                    assert(self@.dom().contains(c[j]));
                    assert(self@[c[j]].contains(c[j + 1]) == redirected(mpre, first, node, c[j], c[j + 1]));
                    assert(mpre[c[j]].contains(c[j + 1]));
                    assert(c[j + 1] != node);
                }
            }
            i = i + 1;
        }
        proof {
            assert(c.subrange(1, n as int) == cycle@.subrange(1, cycle@.len() as int));
        }
        true
    }

    /// Repeatedly finds and collapses cycles until the graph is acyclic,
    /// then removes isolated nodes.  Returns the total length of the cycles
    /// collapsed, which is zero exactly when the graph was already acyclic;
    /// a second call therefore returns zero.
    #[verifier::loop_isolation(false)]
    pub fn simplify(&mut self) -> (removed: usize)
        requires
            old(self).wf(),
            old(self).node_count() * 2 <= usize::MAX,
        ensures
            final(self).wf(),
            !has_cycle(final(self)@),
            forall|k: u32|
                #[trigger] final(self)@.dom().contains(k) ==> old(self)@.dom().contains(k),
            (removed == 0) == !has_cycle(old(self)@),
            !has_cycle(old(self)@) ==> (forall|k: u32|
                #[trigger] final(self)@.dom().contains(k) == (old(self)@.dom().contains(k)
                    && !isolated(old(self)@, k))) && (forall|k: u32|
                #[trigger] final(self)@.dom().contains(k) ==> final(self)@[k] == old(self)@[k]),
    {
        let ghost m0 = self@;
        let mut removed: usize = 0;
        let mut found = self.find_cycle();
        while found.is_some()
            invariant
                self.wf(),
                match found {
                    Some(cf) => cf.wf() && is_cycle_seq(self@, cf@),
                    None => !has_cycle(self@),
                },
                forall|k: u32| #[trigger] self@.dom().contains(k) ==> m0.dom().contains(k),
                removed + 2 * self.node_count() <= 2 * old(self).node_count(),
                removed == 0 ==> *self == *old(self),
                removed > 0 ==> has_cycle(m0),
            decreases self.node_count(),
        {
            let cy = found.unwrap();
            proof {
                lemma_cycle_seq_edges(self@, cy@);
                if removed == 0 {
                    assert(has_cycle(m0)) by {
                        assert(is_cycle_seq(m0, cy@));
                    }
                }
            }
            let ghost mpre = self@;
            let ghost cnt_pre = self.node_count();
            let ok = self.collapse_cycle(&cy);
            proof {
                assert(ok);
                assert(cy@.len() >= 2);
                assert(self.node_count() < cnt_pre);
            }
            removed = removed + cy.len();
            found = self.find_cycle();
        }
        let ghost mid = self@;
        self.cleanup();
        proof {
            assert(!has_cycle(mid));
            assert forall|k: u32| #[trigger] self@.dom().contains(k) implies mid.dom().contains(k)
                && self@[k] == mid[k] by {}
            lemma_cycle_preserved_submap(self@, mid);
            if removed == 0 {
                assert(mid == m0);
            }
            if !has_cycle(m0) {
                assert(removed == 0);
            }
        }
        removed
    }

    /// Consumes the graph and returns its simplified (acyclic) form.
    pub fn simplified(self) -> (r: Graph)
        requires
            self.wf(),
            self.node_count() * 2 <= usize::MAX,
        ensures
            r.wf(),
            !has_cycle(r@),
            forall|k: u32| #[trigger] r@.dom().contains(k) ==> self@.dom().contains(k),
            !has_cycle(self@) ==> (forall|k: u32|
                #[trigger] r@.dom().contains(k) == (self@.dom().contains(k) && !isolated(
                    self@,
                    k,
                ))) && (forall|k: u32| #[trigger] r@.dom().contains(k) ==> r@[k] == self@[k]),
    {
        let mut g = self;
        g.simplify();
        g
    }
}


/// Whether the slice holds `x`.
fn slice_contains(l: &[u32], x: u32) -> (r: bool)
    ensures
        r == l@.contains(x),
{
    let n = l.len();
    let mut i: usize = 0;
    while i < n
        invariant
            0 <= i <= n,
            n == l@.len(),
            forall|j: int| 0 <= j < i ==> l@[j] != x,
        decreases n - i,
    {
        if l[i] == x {
            return true;
        }
        i = i + 1;
    }
    proof {
        if l@.contains(x) {
            let j = choose|j: int| 0 <= j < l@.len() && l@[j] == x;
            assert(l@[j] == x);
        }
    }
    false
}

/// The model after `connect(from, to)`.
pub open spec fn connect_model(m: Map<u32, Set<u32>>, from: u32, to: u32) -> Map<u32, Set<u32>> {
    if from == to {
        m
    } else {
        m.insert(to, succs_or_empty(m, to)).insert(from, succs_or_empty(m, from).insert(to))
    }
}

/// The model after connecting each element of `s` to the next, starting at
/// index `i`.
pub open spec fn chained(m: Map<u32, Set<u32>>, s: Seq<u32>, i: int) -> Map<u32, Set<u32>>
    decreases s.len() - i,
{
    if i < 0 || i + 1 >= s.len() {
        m
    } else {
        chained(connect_model(m, s[i], s[i + 1]), s, i + 1)
    }
}

/// What `needed_to_connect` returns: `m` is the simplified form of the
/// graph `g`; `sinks` and `sources` are its ascending sink and source
/// lists; and the result `rm` is the subgraph induced by `sinks + sources`
/// after chaining each of those nodes to the next.
pub open spec fn connector_post(
    g: Map<u32, Set<u32>>,
    m: Map<u32, Set<u32>>,
    sinks: Seq<u32>,
    sources: Seq<u32>,
    rm: Map<u32, Set<u32>>,
) -> bool {
    let tc = sinks + sources;
    let mc = chained(m, tc, 0);
    &&& !has_cycle(m)
    &&& (forall|k: u32| #[trigger] m.dom().contains(k) ==> g.dom().contains(k))
    &&& (!has_cycle(g) ==> (forall|k: u32|
        #[trigger] m.dom().contains(k) == (g.dom().contains(k) && !isolated(g, k))) && (forall|
        k: u32,
    |
        #[trigger] m.dom().contains(k) ==> m[k] == g[k]))
    &&& list_sorted(sinks)
    &&& list_sorted(sources)
    &&& (forall|k: u32|
        #[trigger] sinks.contains(k) == (m.dom().contains(k) && (forall|e: u32| !m[k].contains(
            e,
        ))))
    &&& (forall|k: u32|
        #[trigger] sources.contains(k) == (m.dom().contains(k) && (forall|y: u32|
            !(#[trigger] has_edge(m, y, k)))))
    &&& (forall|a: u32, b: u32|
        #[trigger] has_edge(rm, a, b) == (has_edge(mc, a, b) && tc.contains(a) && tc.contains(b)))
    &&& (forall|k: u32|
        #[trigger] rm.dom().contains(k) == (tc.contains(k) && (exists|x: u32|
            #[trigger] tc.contains(x) && (has_edge(mc, k, x) || has_edge(mc, x, k)))))
}

impl Graph {
    /// The graph induced by `ids`: exactly the edges of this graph whose
    /// both endpoints lie in `ids`, with isolated nodes cleaned away.
    #[verifier::loop_isolation(false)]
    #[verifier::rlimit(100)]
    pub fn subgraph(&self, ids: &[u32]) -> (r: Graph)
        requires
            self.wf(),
        ensures
            r.wf(),
            forall|a: u32, b: u32|
                #[trigger] has_edge(r@, a, b) == (has_edge(self@, a, b) && ids@.contains(a)
                    && ids@.contains(b)),
            forall|k: u32|
                #[trigger] r@.dom().contains(k) == (ids@.contains(k) && (exists|x: u32|
                    #[trigger] ids@.contains(x) && (has_edge(self@, k, x) || has_edge(
                        self@,
                        x,
                        k,
                    )))),
    {
        let mut sub = Graph::new(Vec::new());
        proof {
            assert forall|k: u32| !(#[trigger] sub@.dom().contains(k)) by {
                assert(!has_key(Seq::<(u32, Vec<u32>)>::empty(), k));
            }
        }
        let ni = ids.len();
        let mut ii: usize = 0;
        while ii < ni
            invariant
                0 <= ii <= ni,
                ni == ids@.len(),
                self.wf(),
                sub.wf(),
                forall|a: u32, b: u32|
                    #[trigger] has_edge(sub@, a, b) == (has_edge(self@, a, b) && ids@.subrange(
                        0,
                        ii as int,
                    ).contains(a) && ids@.contains(b)),
                forall|x: u32, y: u32| #[trigger] has_edge(sub@, x, y) ==> sub@.dom().contains(y),
                forall|k: u32| #[trigger] sub@.dom().contains(k) ==> !isolated(sub@, k),
            decreases ni - ii,
        {
            let a = ids[ii];
            let ghost done = ids@.subrange(0, ii as int);
            let ghost done1 = ids@.subrange(0, ii + 1);
            proof {
                assert(done1 =~= done.push(a));
                lemma_push_contains(done, a);
                assert(ids@.contains(ids@[ii as int]));
            }
            match self.find_key(a) {
                Some(ai) => {
                    let deg = {
                        let pair = &self.nodes[ai];
                        pair.1.len()
                    };
                    proof {
                        self.lemma_view_entry(ai as int);
                    }
                    let mut j: usize = 0;
                    while j < deg
                        invariant
                            0 <= j <= deg,
                            ai < self.nodes@.len(),
                            self.nodes@[ai as int].0 == a,
                            deg == self.nodes@[ai as int].1@.len(),
                            self.wf(),
                            sub.wf(),
                            forall|x: u32, y: u32|
                                #[trigger] has_edge(sub@, x, y) == (has_edge(self@, x, y)
                                    && ids@.contains(y) && (done.contains(x) || (x == a
                                    && self.nodes@[ai as int].1@.subrange(0, j as int).contains(
                                    y,
                                )))),
                            forall|x: u32, y: u32|
                                #[trigger] has_edge(sub@, x, y) ==> sub@.dom().contains(y),
                            forall|k: u32| #[trigger] sub@.dom().contains(k) ==> !isolated(sub@, k),
                        decreases deg - j,
                    {
                        let b = {
                            let pair = &self.nodes[ai];
                            pair.1[j]
                        };
                        let ghost ldone = self.nodes@[ai as int].1@.subrange(0, j as int);
                        let ghost ldone1 = self.nodes@[ai as int].1@.subrange(0, j + 1);
                        proof {
                            assert(ldone1 =~= ldone.push(b));
                            lemma_push_contains(ldone, b);
                            assert(self.nodes@[ai as int].1@.contains(b));
                            assert(self@[a].contains(b));
                            assert(has_edge(self@, a, b));
                            assert(a != b) by {
                                assert(!self.nodes@[ai as int].1@.contains(
                                    self.nodes@[ai as int].0,
                                ));
                            }
                        }
                        if slice_contains(ids, b) {
                            let ghost spre = sub@;
                            sub.connect(a, b);
                            proof {
                                lemma_connect_edge_effect(spre, sub@, a, b);
                                assert(has_edge(sub@, a, b));
                                assert(sub@[a].contains(b)) by {
                                    assert(has_edge(sub@, a, b));
                                }
                                assert forall|k: u32|
                                    #[trigger] sub@.dom().contains(k) implies !isolated(
                                    sub@,
                                    k,
                                ) by {
                                    if k == a {
                                        assert(sub@[a].contains(b));
                                    } else if k == b {
                                        assert(has_edge(sub@, a, b));
                                    } else {
                                        assert(spre.dom().contains(k));
                                        assert(!isolated(spre, k));
                                        if exists|e: u32| spre[k].contains(e) {
                                            let e = choose|e: u32| spre[k].contains(e);
                                            assert(sub@[k] == spre[k]);
                                            assert(sub@[k].contains(e));
                                        } else {
                                            assert(forall|e: u32| !spre[k].contains(e));
                                            let y = choose|y: u32| #[trigger] has_edge(spre, y, k);
                                            assert(has_edge(sub@, y, k));
                                        }
                                    }
                                }
                            }
                        } else {
                            proof {
                                assert forall|x: u32, y: u32|
                                    #[trigger] has_edge(sub@, x, y) == (has_edge(self@, x, y)
                                        && ids@.contains(y) && (done.contains(x) || (x == a
                                        && ldone1.contains(y)))) by {
                                    if x == a && y == b {
                                        assert(!ids@.contains(b));
                                    }
                                }
                            }
                        }
                        j = j + 1;
                    }
                    proof {
                        assert(self.nodes@[ai as int].1@.subrange(0, deg as int)
                            =~= self.nodes@[ai as int].1@);
                        assert forall|x: u32, y: u32|
                            #[trigger] has_edge(sub@, x, y) == (has_edge(self@, x, y)
                                && ids@.contains(y) && done1.contains(x)) by {
                            if x == a && has_edge(self@, x, y) {
                                assert(self@[a].contains(y) == self.nodes@[ai as int].1@.contains(
                                    y,
                                ));
                            }
                        }
                    }
                },
                None => {
                    proof {
                        assert forall|x: u32, y: u32|
                            #[trigger] has_edge(sub@, x, y) == (has_edge(self@, x, y)
                                && ids@.contains(y) && done1.contains(x)) by {
                            if x == a {
                                assert(!has_edge(self@, a, y));
                            }
                        }
                    }
                },
            }
            ii = ii + 1;
        }
        proof {
            assert(ids@.subrange(0, ni as int) =~= ids@);
            assert forall|x: u32, y: u32|
                #[trigger] has_edge(sub@, x, y) == (has_edge(self@, x, y) && ids@.contains(x)
                    && ids@.contains(y)) by {
                assert(has_edge(sub@, x, y) == (has_edge(self@, x, y) && ids@.subrange(
                    0,
                    ni as int,
                ).contains(x) && ids@.contains(y)));
            }
        }
        let ghost pre = sub@;
        sub.cleanup();
        proof {
            assert forall|k: u32| #[trigger] sub@.dom().contains(k) == pre.dom().contains(k) by {
                if pre.dom().contains(k) {
                    assert(!isolated(pre, k));
                }
            }
            assert forall|a: u32, b: u32| #[trigger] has_edge(sub@, a, b) == has_edge(
                pre,
                a,
                b,
            ) by {
                if has_edge(pre, a, b) {
                    assert(sub@.dom().contains(a));
                    assert(sub@[a] == pre[a]);
                }
                if has_edge(sub@, a, b) {
                    assert(pre.dom().contains(a));
                    assert(sub@[a] == pre[a]);
                }
            }
            assert forall|k: u32| #[trigger] sub@.dom().contains(k) == (ids@.contains(k) && (
            exists|x: u32|
                #[trigger] ids@.contains(x) && (has_edge(self@, k, x) || has_edge(
                    self@,
                    x,
                    k,
                )))) by {
                if sub@.dom().contains(k) {
                    assert(pre.dom().contains(k));
                    assert(!isolated(pre, k));
                    if exists|e: u32| pre[k].contains(e) {
                        let x = choose|e: u32| pre[k].contains(e);
                        assert(has_edge(pre, k, x));
                        assert(has_edge(self@, k, x) && ids@.contains(k) && ids@.contains(x));
                        assert(ids@.contains(x) && (has_edge(self@, k, x) || has_edge(
                            self@,
                            x,
                            k,
                        )));
                    } else {
                        assert(forall|e: u32| !pre[k].contains(e));
                        let x = choose|y: u32| #[trigger] has_edge(pre, y, k);
                        assert(has_edge(pre, x, k));
                        assert(has_edge(self@, x, k) && ids@.contains(x) && ids@.contains(k));
                        assert(ids@.contains(x) && (has_edge(self@, k, x) || has_edge(
                            self@,
                            x,
                            k,
                        )));
                    }
                } else {
                    if ids@.contains(k) && (exists|x: u32|
                        #[trigger] ids@.contains(x) && (has_edge(self@, k, x) || has_edge(
                            self@,
                            x,
                            k,
                        ))) {
                        let x = choose|x: u32|
                            #[trigger] ids@.contains(x) && (has_edge(self@, k, x) || has_edge(
                                self@,
                                x,
                                k,
                            ));
                        if has_edge(self@, k, x) {
                            assert(has_edge(pre, k, x) == (has_edge(self@, k, x) && ids@.contains(
                                k,
                            ) && ids@.contains(x)));
                            assert(has_edge(pre, k, x));
                            assert(pre.dom().contains(k));
                        } else {
                            assert(has_edge(self@, x, k));
                            assert(has_edge(pre, x, k) == (has_edge(self@, x, k) && ids@.contains(
                                x,
                            ) && ids@.contains(k)));
                            assert(has_edge(pre, x, k));
                            assert(pre.dom().contains(k));
                            assert(!isolated(pre, k));
                        }
                    }
                }
            }
        }
        sub
    }

    /// A structural copy of the graph.
    fn duplicate(&self) -> (r: Graph)
        requires
            self.wf(),
        ensures
            r.wf(),
            r@ == self@,
            r.node_count() == self.node_count(),
    {
        let n = self.nodes.len();
        let mut nodes: Vec<(u32, Vec<u32>)> = Vec::new();
        let mut i: usize = 0;
        while i < n
            invariant
                0 <= i <= n,
                n == self.nodes@.len(),
                self.wf(),
                nodes@.len() == i,
                forall|j: int|
                    0 <= j < i ==> (#[trigger] nodes@[j]).0 == self.nodes@[j].0 && nodes@[j].1@
                        == self.nodes@[j].1@,
            decreases n - i,
        {
            let pair = &self.nodes[i];
            let lst = copy_list(&pair.1);
            let key = pair.0;
            nodes.push((key, lst));
            i = i + 1;
        }
        let g = Graph { nodes };
        proof {
            assert(wf_adjacency(g.nodes@)) by {
                assert forall|p: int, q: int|
                    0 <= p < q < g.nodes@.len() implies (#[trigger] g.nodes@[p]).0
                    < (#[trigger] g.nodes@[q]).0 by {
                    assert(self.nodes@[p].0 < self.nodes@[q].0);
                }
                assert forall|p: int| 0 <= p < g.nodes@.len() implies list_sorted(
                    (#[trigger] g.nodes@[p]).1@,
                ) && !g.nodes@[p].1@.contains(g.nodes@[p].0) by {
                    assert(g.nodes@[p].1@ == self.nodes@[p].1@);
                }
                assert forall|p: int, e: u32|
                    0 <= p < g.nodes@.len() && #[trigger] g.nodes@[p].1@.contains(e) implies has_key(
                    g.nodes@,
                    e,
                ) by {
                    assert(self.nodes@[p].1@.contains(e));
                    assert(has_key(self.nodes@, e));
                    let w = choose|w: int|
                        0 <= w < self.nodes@.len() && (#[trigger] self.nodes@[w]).0 == e;
                    assert((#[trigger] g.nodes@[w]).0 == e);
                }
            }
            assert(g@ =~~= self@) by {
                assert forall|k: u32| has_key(g.nodes@, k) == has_key(self.nodes@, k) by {
                    if has_key(g.nodes@, k) {
                        let w = choose|w: int|
                            0 <= w < g.nodes@.len() && (#[trigger] g.nodes@[w]).0 == k;
                        assert((#[trigger] self.nodes@[w]).0 == k);
                    }
                    if has_key(self.nodes@, k) {
                        let w = choose|w: int|
                            0 <= w < self.nodes@.len() && (#[trigger] self.nodes@[w]).0 == k;
                        assert((#[trigger] g.nodes@[w]).0 == k);
                    }
                }
                assert forall|k: u32| g@.dom().contains(k) implies g@[k] =~= self@[k] by {
                    let w = choose|w: int|
                        0 <= w < self.nodes@.len() && (#[trigger] self.nodes@[w]).0 == k;
                    lemma_key_index(self.nodes@, w);
                    assert((#[trigger] g.nodes@[w]).0 == k);
                    lemma_key_index(g.nodes@, w);
                    assert forall|e: u32| g@[k].contains(e) == self@[k].contains(e) by {
                        assert(entry_set(g.nodes@, k).contains(e) == g.nodes@[w].1@.contains(e));
                        assert(entry_set(self.nodes@, k).contains(e) == self.nodes@[w].1@.contains(
                            e,
                        ));
                    }
                }
            }
        }
        g
    }

    /// The minimal connector structure of the graph: simplifies a copy,
    /// chains every sink and then every source of the result to the next
    /// one, and returns the subgraph induced by exactly those nodes.
    #[verifier::loop_isolation(false)]
    pub fn needed_to_connect(&self) -> (r: Graph)
        requires
            self.wf(),
            self.node_count() * 2 <= usize::MAX,
        ensures
            r.wf(),
            exists|m: Map<u32, Set<u32>>, sinks: Seq<u32>, sources: Seq<u32>|
                #[trigger] connector_post(self@, m, sinks, sources, r@),
    {
        let mut graph = self.duplicate();
        graph.simplify();
        let ghost msimp = graph@;
        let ends_pair = graph.find_ends();
        let mut starts = ends_pair.0;
        let mut to_connect = ends_pair.1;
        let ghost sources_seq = starts@;
        let ghost sinks_seq = to_connect@;
        to_connect.append(&mut starts);
        proof {
            assert(to_connect@ == sinks_seq + sources_seq);
        }
        let ghost tc = to_connect@;
        let tlen = to_connect.len();
        let mut w: usize = 0;
        if tlen > 0 {
        let stop = tlen - 1;
        while w < stop
            invariant
                0 <= w <= stop,
                stop == tlen - 1,
                tlen == tc.len(),
                to_connect@ == tc,
                graph.wf(),
                chained(graph@, tc, w as int) == chained(msimp, tc, 0),
            decreases stop - w,
        {
            let x = to_connect[w];
            let y = to_connect[w + 1];
            let ghost gpre = graph@;
            graph.connect(x, y);
            proof {
                assert(graph@ == connect_model(gpre, x, y));
                assert(chained(gpre, tc, w as int) == chained(connect_model(gpre, x, y), tc, w + 1));
            }
            w = w + 1;
        }
        }
        proof {
            assert(chained(graph@, tc, w as int) == graph@);
            assert(graph@ == chained(msimp, tc, 0));
        }
        let r = graph.subgraph(to_connect.as_slice());
        proof {
            assert(connector_post(self@, msimp, sinks_seq, sources_seq, r@));
        }
        r
    }
}


impl Graph {
    /// The compact debug rendering of the graph.
    pub closed spec fn render_spec(&self) -> Seq<char> {
        seq!['G', 'r', 'a', 'p', 'h', ' ', '{', ' '] + entries_rendered(
            self.nodes@,
            self.nodes@.len() as int,
        ) + seq!['}']
    }

    /// The compact debug rendering: each node with its ascending outgoing
    /// set, as in `Graph { 1 => 2, 3; }`.
    #[verifier::loop_isolation(false)]
    pub fn render(&self) -> (r: String)
        ensures
            r@ == self.render_spec(),
    {
        let ghost hdr = seq!['G', 'r', 'a', 'p', 'h', ' ', '{', ' '];
        let ghost sep = seq![',', ' '];
        let mut out: Vec<char> = Vec::new();
        out.push('G');
        out.push('r');
        out.push('a');
        out.push('p');
        out.push('h');
        out.push(' ');
        out.push('{');
        out.push(' ');
        proof {
            assert(out@ =~= hdr + entries_rendered(self.nodes@, 0));
        }
        let n = self.nodes.len();
        let mut i: usize = 0;
        while i < n
            invariant
                0 <= i <= n,
                n == self.nodes@.len(),
                out@ == hdr + entries_rendered(self.nodes@, i as int),
            decreases n - i,
        {
            let key = {
                let pair = &self.nodes[i];
                pair.0
            };
            let deg = {
                let pair = &self.nodes[i];
                pair.1.len()
            };
            let ghost pre = out@;
            let ghost l = self.nodes@[i as int].1@;
            push_decimal(&mut out, key);
            out.push(' ');
            out.push('=');
            out.push('>');
            out.push(' ');
            proof {
                assert(out@ =~= pre + decimal_of(key as nat) + seq![' ', '=', '>', ' '] + joined(
                    l.subrange(0, 0),
                    sep,
                ));
            }
            let mut j: usize = 0;
            while j < deg
                invariant
                    0 <= j <= deg,
                    i < n == self.nodes@.len(),
                    deg == l.len(),
                    l == self.nodes@[i as int].1@,
                    out@ == pre + decimal_of(key as nat) + seq![' ', '=', '>', ' '] + joined(
                        l.subrange(0, j as int),
                        sep,
                    ),
                decreases deg - j,
            {
                let ghost head = out@;
                if j > 0 {
                    out.push(',');
                    out.push(' ');
                    proof {
                        assert(out@ =~= head + sep);
                    }
                }
                let e = {
                    let pair = &self.nodes[i];
                    pair.1[j]
                };
                let ghost mid = out@;
                push_decimal(&mut out, e);
                proof {
                    let d = decimal_of(l[j as int] as nat);
                    assert(out@ == mid + d);
                    let done = l.subrange(0, j as int);
                    let done1 = l.subrange(0, j + 1);
                    assert(done1 =~= done.push(l[j as int]));
                    if j == 0 {
                        assert(done1 =~= seq![l[0]]);
                        assert(joined(done1, sep) == d);
                        assert(out@ =~= pre + decimal_of(key as nat) + seq![' ', '=', '>', ' ']
                            + joined(done1, sep));
                    } else {
                        lemma_joined_push(done, l[j as int], sep);
                        assert(joined(done1, sep) == joined(done, sep) + sep + d);
                        assert(out@ =~= pre + decimal_of(key as nat) + seq![' ', '=', '>', ' ']
                            + joined(done1, sep));
                    }
                }
                j = j + 1;
            }
            let ghost fin = out@;
            out.push(';');
            out.push(' ');
            proof {
                assert(out@ =~= fin + seq![';', ' ']);
                assert(l.subrange(0, deg as int) =~= l);
                assert(out@ =~= pre + entry_rendered(key, l));
                assert(entries_rendered(self.nodes@, i + 1) == entries_rendered(
                    self.nodes@,
                    i as int,
                ) + entry_rendered(self.nodes@[i as int].0, self.nodes@[i as int].1@));
                assert(out@ =~= hdr + entries_rendered(self.nodes@, i + 1));
            }
            i = i + 1;
        }
        out.push('}');
        proof {
            assert(out@ =~= self.render_spec());
        }
        string_from_chars(&out)
    }

    /// The expanded debug rendering of the graph.
    pub closed spec fn render_pretty_spec(&self) -> Seq<char> {
        seq!['G', 'r', 'a', 'p', 'h', ' ', '{', '\n'] + entries_rendered_pretty(
            self.nodes@,
            self.nodes@.len() as int,
        ) + seq!['}']
    }

    /// The expanded debug rendering: one indented line per node.
    #[verifier::loop_isolation(false)]
    pub fn render_pretty(&self) -> (r: String)
        ensures
            r@ == self.render_pretty_spec(),
    {
        let ghost hdr = seq!['G', 'r', 'a', 'p', 'h', ' ', '{', '\n'];
        let ghost sep = seq![',', ' '];
        let mut out: Vec<char> = Vec::new();
        out.push('G');
        out.push('r');
        out.push('a');
        out.push('p');
        out.push('h');
        out.push(' ');
        out.push('{');
        out.push('\n');
        proof {
            assert(out@ =~= hdr + entries_rendered_pretty(self.nodes@, 0));
        }
        let n = self.nodes.len();
        let mut i: usize = 0;
        while i < n
            invariant
                0 <= i <= n,
                n == self.nodes@.len(),
                out@ == hdr + entries_rendered_pretty(self.nodes@, i as int),
            decreases n - i,
        {
            let key = {
                let pair = &self.nodes[i];
                pair.0
            };
            let deg = {
                let pair = &self.nodes[i];
                pair.1.len()
            };
            let ghost pre = out@;
            let ghost l = self.nodes@[i as int].1@;
            out.push(' ');
            out.push(' ');
            out.push(' ');
            out.push(' ');
            push_decimal(&mut out, key);
            out.push(' ');
            out.push('=');
            out.push('>');
            out.push(' ');
            proof {
                assert(out@ =~= pre + seq![' ', ' ', ' ', ' '] + decimal_of(key as nat) + seq![
                    ' ',
                    '=',
                    '>',
                    ' ',
                ] + joined(l.subrange(0, 0), sep));
            }
            let mut j: usize = 0;
            while j < deg
                invariant
                    0 <= j <= deg,
                    i < n == self.nodes@.len(),
                    deg == l.len(),
                    l == self.nodes@[i as int].1@,
                    out@ == pre + seq![' ', ' ', ' ', ' '] + decimal_of(key as nat) + seq![
                        ' ',
                        '=',
                        '>',
                        ' ',
                    ] + joined(l.subrange(0, j as int), sep),
                decreases deg - j,
            {
                let ghost head = out@;
                if j > 0 {
                    out.push(',');
                    out.push(' ');
                    proof {
                        assert(out@ =~= head + sep);
                    }
                }
                let e = {
                    let pair = &self.nodes[i];
                    pair.1[j]
                };
                let ghost mid = out@;
                push_decimal(&mut out, e);
                proof {
                    let d = decimal_of(l[j as int] as nat);
                    assert(out@ == mid + d);
                    let done = l.subrange(0, j as int);
                    let done1 = l.subrange(0, j + 1);
                    assert(done1 =~= done.push(l[j as int]));
                    if j == 0 {
                        assert(done1 =~= seq![l[0]]);
                        assert(joined(done1, sep) == d);
                        assert(out@ =~= pre + seq![' ', ' ', ' ', ' '] + decimal_of(key as nat)
                            + seq![' ', '=', '>', ' '] + joined(done1, sep));
                    } else {
                        lemma_joined_push(done, l[j as int], sep);
                        assert(joined(done1, sep) == joined(done, sep) + sep + d);
                        assert(out@ =~= pre + seq![' ', ' ', ' ', ' '] + decimal_of(key as nat)
                            + seq![' ', '=', '>', ' '] + joined(done1, sep));
                    }
                }
                j = j + 1;
            }
            let ghost fin = out@;
            out.push(';');
            out.push('\n');
            proof {
                assert(out@ =~= fin + seq![';', '\n']);
                assert(l.subrange(0, deg as int) =~= l);
                assert(out@ =~= pre + entry_rendered_pretty(key, l));
                assert(entries_rendered_pretty(self.nodes@, i + 1) == entries_rendered_pretty(
                    self.nodes@,
                    i as int,
                ) + entry_rendered_pretty(self.nodes@[i as int].0, self.nodes@[i as int].1@));
                assert(out@ =~= hdr + entries_rendered_pretty(self.nodes@, i + 1));
            }
            i = i + 1;
        }
        out.push('}');
        proof {
            assert(out@ =~= self.render_pretty_spec());
        }
        string_from_chars(&out)
    }
}

} // verus!
