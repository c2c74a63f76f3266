//! Observer-facing topology graph: the edge set and, for every node, the
//! adjacent and not-adjacent neighbor lists.

use vstd::prelude::*;

verus! {

/// An undirected link between two node ids, denormalized with each
/// endpoint's kind code and position for the observer's convenience.
#[derive(Clone, Copy, PartialEq, Eq, Structural, Debug)]
pub struct EdgeStruct {
    pub id1: i32,
    pub id2: i32,
    pub node_type1: i32,
    pub node_type2: i32,
    pub index1: i32,
    pub index2: i32,
}

/// A drone as the observer sees it. The drop rate is carried as an opaque
/// code chosen by the presentation layer; this library never interprets it.
#[derive(Clone, Debug)]
pub struct DroneStruct {
    pub id: i32,
    pub adjacent: Vec<i32>,
    pub not_adjacent: Vec<i32>,
    pub pdr: u32,
    pub crashed: bool,
    pub position_in_vector: i32,
}

/// A client or server as the observer sees it. Clients and servers only
/// ever connect to drones, so both neighbor lists hold drone ids.
#[derive(Clone, Debug)]
pub struct ClientServerStruct {
    pub id: i32,
    pub drones_adjacent: Vec<i32>,
    pub drones_not_adjacent: Vec<i32>,
    pub position_in_vector: i32,
}

/// Whether the edge `e` joins the unordered pair {a, b}.
pub open spec fn edge_matches(e: EdgeStruct, a: int, b: int) -> bool {
    (e.id1 == a && e.id2 == b) || (e.id1 == b && e.id2 == a)
}

/// Whether some edge in `edges` joins the unordered pair {a, b}.
pub open spec fn spec_has_edge(edges: Seq<EdgeStruct>, a: int, b: int) -> bool {
    exists|k: int| 0 <= k < edges.len() && edge_matches(edges[k], a, b)
}

/// At most one edge per unordered pair of ids.
pub open spec fn edges_unique(edges: Seq<EdgeStruct>) -> bool {
    forall|k1: int, k2: int|
        0 <= k1 < k2 < edges.len() ==> !edge_matches(
            edges[k1],
            edges[k2].id1 as int,
            edges[k2].id2 as int,
        )
}

/// A list of ids with no repetitions.
pub open spec fn no_dup(s: Seq<i32>) -> bool {
    forall|i: int, j: int| 0 <= i < j < s.len() ==> s[i] != s[j]
}

/// The two neighbor lists of one node never overlap, and neither repeats
/// an id.
pub open spec fn lists_wf(adjacent: Seq<i32>, not_adjacent: Seq<i32>) -> bool {
    &&& no_dup(adjacent)
    &&& no_dup(not_adjacent)
    &&& forall|y: i32| !(adjacent.contains(y) && #[trigger] not_adjacent.contains(y))
}

/// Well-formedness of a drone's observer record.
pub open spec fn drone_wf(d: DroneStruct) -> bool {
    lists_wf(d.adjacent@, d.not_adjacent@)
}

/// Well-formedness of a client's or server's observer record.
pub open spec fn client_server_wf(c: ClientServerStruct) -> bool {
    lists_wf(c.drones_adjacent@, c.drones_not_adjacent@)
}

/// Whether an edge for the unordered pair {id1, id2} is already present.
pub fn check_edges(edges: &Vec<EdgeStruct>, id1: i32, id2: i32) -> (found: bool)
    ensures
        found == spec_has_edge(edges@, id1 as int, id2 as int),
{
    let n = edges.len();
    let mut k: usize = 0;
    while k < n
        invariant
            n == edges@.len(),
            0 <= k <= n,
            forall|j: int| 0 <= j < k ==> !edge_matches(edges@[j], id1 as int, id2 as int),
        decreases n - k,
    {
        let edge = edges[k];
        if (edge.id1 == id1 && edge.id2 == id2) || (edge.id1 == id2 && edge.id2 == id1) {
            return true;
        }
        k = k + 1;
    }
    false
}

/// Whether `x` occurs in the id list `v`.
pub fn contains_id(v: &Vec<i32>, x: i32) -> (found: bool)
    ensures
        found == v@.contains(x),
{
    let n = v.len();
    let mut i: usize = 0;
    while i < n
        invariant
            n == v@.len(),
            0 <= i <= n,
            forall|j: int| 0 <= j < i ==> v@[j] != x,
        decreases n - i,
    {
        if v[i] == x {
            return true;
        }
        i = i + 1;
    }
    false
}

/// Remove the first occurrence of `x` from the id list `v`. On a list
/// without repetitions this removes `x` from the list seen as a set and
/// leaves every other id in place.
pub fn remove_id(v: &mut Vec<i32>, x: i32) -> (found: bool)
    requires
        no_dup(old(v)@),
    ensures
        no_dup(final(v)@),
        found == old(v)@.contains(x),
        !found ==> final(v)@ == old(v)@,
        !final(v)@.contains(x),
        forall|y: i32| y != x ==> (final(v)@.contains(y) <==> old(v)@.contains(y)),
        final(v)@.to_set() == old(v)@.to_set().remove(x),
{
    let n = v.len();
    let mut i: usize = 0;
    let mut found: bool = false;
    while i < n
        invariant_except_break
            !found,
        invariant
            n == v@.len(),
            0 <= i <= n,
            v@ == old(v)@,
            forall|j: int| 0 <= j < i ==> v@[j] != x,
        ensures
            n == v@.len(),
            v@ == old(v)@,
            0 <= i <= n,
            forall|j: int| 0 <= j < i ==> v@[j] != x,
            found ==> i < n && v@[i as int] == x,
            !found ==> i == n,
        decreases n - i,
    {
        if v[i] == x {
            found = true;
            break;
        }
        i = i + 1;
    }
    if found {
        let ghost pre = v@;
        v.remove(i);
        proof {
            assert(forall|j: int| 0 <= j < i ==> final(v)@[j] == pre[j]);
            assert(forall|j: int| i <= j < pre.len() - 1 ==> final(v)@[j] == pre[j + 1]);
            assert forall|y: i32| y != x implies (v@.contains(y) <==> pre.contains(y)) by {
                if pre.contains(y) {
                    let j = choose|j: int| 0 <= j < pre.len() && pre[j] == y;
                    if j < i {
                        assert(v@[j] == y);
                    } else {
                        assert(j != i);
                        assert(v@[j - 1] == y);
                    }
                }
            }
            assert(!v@.contains(x)) by {
                if v@.contains(x) {
                    let j = choose|j: int| 0 <= j < v@.len() && v@[j] == x;
                    if j >= i {
                        assert(pre[j + 1] == x);
                    }
                }
            }
            assert(v@.to_set() =~= pre.to_set().remove(x));
        }
    } else {
        proof {
            assert(!v@.contains(x)) by {
                if v@.contains(x) {
                    let j = choose|j: int| 0 <= j < v@.len() && v@[j] == x;
                }
            }
            assert(v@.to_set() =~= old(v)@.to_set().remove(x));
        }
    }
    found
}


/// Pushing an id onto a list adds it to the list seen as a set.
pub proof fn lemma_push_to_set(s: Seq<i32>, x: i32)
    ensures
        s.push(x).to_set() == s.to_set().insert(x),
        no_dup(s) && !s.contains(x) ==> no_dup(s.push(x)),
{
    let post = s.push(x);
    assert(post.to_set() =~= s.to_set().insert(x)) by {
        assert forall|y: i32| #[trigger] post.contains(y) implies s.contains(y) || y == x by {
            let j = choose|j: int| 0 <= j < post.len() && post[j] == y;
            if j < s.len() {
                assert(s[j] == y);
            }
        }
        assert(post[post.len() - 1] == x);
        assert forall|y: i32| s.contains(y) implies #[trigger] post.contains(y) by {
            let j = choose|j: int| 0 <= j < s.len() && s[j] == y;
            assert(post[j] == y);
        }
    }
    if no_dup(s) && !s.contains(x) {
        assert forall|i: int, j: int| 0 <= i < j < post.len() implies post[i] != post[j] by {
            if j == post.len() - 1 {
                assert(post[i] == s[i]);
            }
        }
    }
}

/// The predicate an edge set is filtered by when node `id` leaves: the
/// edge touches neither endpoint `id`.
pub open spec fn not_touching(id: i32) -> spec_fn(EdgeStruct) -> bool {
    |e: EdgeStruct| e.id1 != id && e.id2 != id
}

/// Remove every edge with `id` as an endpoint, keeping the rest in order.
pub fn remove_edges_touching(edges: &mut Vec<EdgeStruct>, id: i32)
    ensures
        final(edges)@ == old(edges)@.filter(not_touching(id)),
        edges_unique(old(edges)@) ==> edges_unique(final(edges)@),
{
    let ghost pre = edges@;
    let ghost pred = not_touching(id);
    proof {
        reveal(Seq::<EdgeStruct>::filter);
        assert(pre.take(0).filter(pred) =~= Seq::<EdgeStruct>::empty());
    }
    let n = edges.len();
    let mut out: Vec<EdgeStruct> = Vec::new();
    let mut i: usize = 0;
    while i < n
        invariant
            n == pre.len(),
            edges@ == pre,
            0 <= i <= n,
            out@ == pre.take(i as int).filter(pred),
            pred == not_touching(id),
        decreases n - i,
    {
        proof {
            reveal(Seq::<EdgeStruct>::filter);
            assert(pre.take(i as int + 1).drop_last() =~= pre.take(i as int));
            assert(pre.take(i as int + 1).last() == pre[i as int]);
        }
        let e = edges[i];
        if !(e.id1 == id || e.id2 == id) {
            out.push(e);
        }
        i = i + 1;
    }
    proof {
        reveal(Seq::<EdgeStruct>::filter);
        assert(pre.take(n as int) =~= pre);
    }
    *edges = out;
    proof {
        if edges_unique(pre) {
            assert forall|k1: int, k2: int|
                0 <= k1 < k2 < edges@.len() implies !edge_matches(
                edges@[k1],
                edges@[k2].id1 as int,
                edges@[k2].id2 as int,
            ) by {
                lemma_filter_indices(pre, pred, k1, k2);
            }
        }
    }
}

/// Two positions of a filtered sequence come from two positions of the
/// original, in the same order.
proof fn lemma_filter_indices(s: Seq<EdgeStruct>, pred: spec_fn(EdgeStruct) -> bool, k1: int, k2: int)
    requires
        0 <= k1 < k2 < s.filter(pred).len(),
    ensures
        exists|j1: int, j2: int|
            0 <= j1 < j2 < s.len() && s[j1] == s.filter(pred)[k1] && s[j2] == s.filter(pred)[k2],
    decreases s.len(),
{
    reveal(Seq::<EdgeStruct>::filter);
    let f = s.filter(pred);
    if s.len() > 0 {
        let t = s.drop_last();
        if pred(s.last()) {
            assert(f == t.filter(pred).push(s.last()));
            if k2 == f.len() - 1 {
                t.lemma_filter_len(pred);
                lemma_filter_index_origin(t, pred, k1);
                let j1 = choose|j1: int| 0 <= j1 < t.len() && t[j1] == t.filter(pred)[k1];
                assert(s[j1] == f[k1]);
                assert(s[s.len() - 1] == f[k2]);
            } else {
                lemma_filter_indices(t, pred, k1, k2);
                let (j1, j2) = choose|j1: int, j2: int|
                    0 <= j1 < j2 < t.len() && t[j1] == t.filter(pred)[k1] && t[j2] == t.filter(
                        pred,
                    )[k2];
                assert(s[j1] == f[k1] && s[j2] == f[k2]);
            }
        } else {
            assert(f == t.filter(pred));
            lemma_filter_indices(t, pred, k1, k2);
            let (j1, j2) = choose|j1: int, j2: int|
                0 <= j1 < j2 < t.len() && t[j1] == t.filter(pred)[k1] && t[j2] == t.filter(
                    pred,
                )[k2];
            assert(s[j1] == f[k1] && s[j2] == f[k2]);
        }
    }
}

/// A position of a filtered sequence comes from a position of the
/// original.
proof fn lemma_filter_index_origin(s: Seq<EdgeStruct>, pred: spec_fn(EdgeStruct) -> bool, k: int)
    requires
        0 <= k < s.filter(pred).len(),
    ensures
        exists|j: int| 0 <= j < s.len() && s[j] == s.filter(pred)[k],
    decreases s.len(),
{
    reveal(Seq::<EdgeStruct>::filter);
    let f = s.filter(pred);
    if s.len() > 0 {
        let t = s.drop_last();
        if pred(s.last()) {
            assert(f == t.filter(pred).push(s.last()));
            if k == f.len() - 1 {
                assert(s[s.len() - 1] == f[k]);
            } else {
                lemma_filter_index_origin(t, pred, k);
                let j = choose|j: int| 0 <= j < t.len() && t[j] == t.filter(pred)[k];
                assert(s[j] == f[k]);
            }
        } else {
            assert(f == t.filter(pred));
            lemma_filter_index_origin(t, pred, k);
            let j = choose|j: int| 0 <= j < t.len() && t[j] == t.filter(pred)[k];
            assert(s[j] == f[k]);
        }
    }
}

/// Remove the edge for the unordered pair {a, b}: the first matching edge
/// leaves the list, and on a deduplicated edge list no match remains.
pub fn remove_edge_pair(edges: &mut Vec<EdgeStruct>, a: i32, b: i32) -> (removed: bool)
    ensures
        removed == spec_has_edge(old(edges)@, a as int, b as int),
        !removed ==> final(edges)@ == old(edges)@,
        removed ==> exists|k: int|
            0 <= k < old(edges)@.len() && edge_matches(old(edges)@[k], a as int, b as int) && (
            forall|j: int| 0 <= j < k ==> !edge_matches(old(edges)@[j], a as int, b as int))
                && final(edges)@ == old(edges)@.remove(k),
        edges_unique(old(edges)@) ==> edges_unique(final(edges)@) && !spec_has_edge(
            final(edges)@,
            a as int,
            b as int,
        ),
{
    let n = edges.len();
    let mut i: usize = 0;
    let mut found: bool = false;
    while i < n
        invariant_except_break
            !found,
        invariant
            n == edges@.len(),
            edges@ == old(edges)@,
            0 <= i <= n,
            forall|j: int| 0 <= j < i ==> !edge_matches(edges@[j], a as int, b as int),
        ensures
            n == edges@.len(),
            edges@ == old(edges)@,
            0 <= i <= n,
            forall|j: int| 0 <= j < i ==> !edge_matches(edges@[j], a as int, b as int),
            found ==> i < n && edge_matches(edges@[i as int], a as int, b as int),
            !found ==> i == n,
        decreases n - i,
    {
        let e = edges[i];
        if (e.id1 == a && e.id2 == b) || (e.id1 == b && e.id2 == a) {
            found = true;
            break;
        }
        i = i + 1;
    }
    if found {
        let ghost pre = edges@;
        let ghost k = i as int;
        edges.remove(i);
        proof {
            let post = edges@;
            assert(forall|j: int| 0 <= j < k ==> post[j] == pre[j]);
            assert(forall|j: int| k <= j < pre.len() - 1 ==> post[j] == pre[j + 1]);
            if edges_unique(pre) {
                assert forall|j1: int, j2: int|
                    0 <= j1 < j2 < post.len() implies !edge_matches(
                    post[j1],
                    post[j2].id1 as int,
                    post[j2].id2 as int,
                ) by {
                    if j1 < k && j2 >= k {
                        assert(post[j1] == pre[j1] && post[j2] == pre[j2 + 1]);
                    } else if j1 >= k {
                        assert(post[j1] == pre[j1 + 1] && post[j2] == pre[j2 + 1]);
                    }
                }
                assert(!spec_has_edge(post, a as int, b as int)) by {
                    if spec_has_edge(post, a as int, b as int) {
                        let j = choose|j: int|
                            0 <= j < post.len() && edge_matches(post[j], a as int, b as int);
                        let jo = if j < k {
                            j
                        } else {
                            j + 1
                        };
                        assert(pre[jo] == post[j]);
                        assert(jo != k);
                        assert(edge_matches(pre[k], a as int, b as int));
                        assert(edge_matches(pre[jo], pre[k].id1 as int, pre[k].id2 as int));
                        assert(edge_matches(pre[k], pre[jo].id1 as int, pre[jo].id2 as int));
                    }
                }
            }
        }
    } else {
        proof {
            assert(!spec_has_edge(edges@, a as int, b as int)) by {
                if spec_has_edge(edges@, a as int, b as int) {
                    let j = choose|j: int|
                        0 <= j < edges@.len() && edge_matches(edges@[j], a as int, b as int);
                }
            }
        }
    }
    found
}

} // verus!
