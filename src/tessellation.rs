//! The dual mesh of a base triangulation: one tile per base vertex, whose corners are
//! the centroids of the triangles around that vertex, in cyclic order.
use vstd::prelude::*;
use arrayvec::ArrayVec;
use crate::graph::{AdjacencyGraph, graph_wf, lists_view, has_edge};
use crate::entries::{
    SurroundingEntry, entries_of, entries_new, entries_len, entries_push, entries_get,
    entries_remove, MAX_CORNERS,
};

verus! {

/// Vertex `k` (0, 1 or 2) of triangle `t` in a flat index list.
pub open spec fn tri(tris: Seq<u32>, t: int, k: int) -> int {
    tris[3 * t + k] as int
}

/// The number of triangles in a flat index list.
pub open spec fn tri_count(tris: Seq<u32>) -> int {
    tris.len() as int / 3
}

/// Triangle `t` has `v` among its vertices.
pub open spec fn touches(tris: Seq<u32>, t: int, v: int) -> bool {
    tri(tris, t, 0) == v || tri(tris, t, 1) == v || tri(tris, t, 2) == v
}

/// A flat list of whole triangles over `n` points, each with three distinct vertices.
pub open spec fn valid_triangles(tris: Seq<u32>, n: int) -> bool {
    &&& tris.len() % 3 == 0
    &&& forall|i: int| 0 <= i < tris.len() ==> #[trigger] tris[i] < n
    &&& forall|t: int| 0 <= t < tri_count(tris) ==> #[trigger] proper_triangle(tris, t)
}

/// Triangle `t` has three distinct vertices.
pub open spec fn proper_triangle(tris: Seq<u32>, t: int) -> bool {
    tri(tris, t, 0) != tri(tris, t, 1) && tri(tris, t, 1) != tri(tris, t, 2) && tri(tris, t, 0)
        != tri(tris, t, 2)
}

/// Triangle `t` as seen from its vertex `v`: the other two vertices in winding order.
pub open spec fn entry_for(tris: Seq<u32>, v: int, t: int) -> SurroundingEntry {
    if tri(tris, t, 0) == v {
        SurroundingEntry { start: tris[3 * t + 1], end: tris[3 * t + 2], corner: t as u32 }
    } else if tri(tris, t, 1) == v {
        SurroundingEntry { start: tris[3 * t + 2], end: tris[3 * t], corner: t as u32 }
    } else {
        SurroundingEntry { start: tris[3 * t], end: tris[3 * t + 1], corner: t as u32 }
    }
}

/// The entries of the first `m` triangles that touch `v`, in triangle order.
pub open spec fn incident(tris: Seq<u32>, v: int, m: nat) -> Seq<SurroundingEntry>
    decreases m,
{
    if m == 0 {
        Seq::empty()
    } else {
        let p = incident(tris, v, (m - 1) as nat);
        if touches(tris, m - 1, v) {
            p.push(entry_for(tris, v, m - 1))
        } else {
            p
        }
    }
}

/// All the entries around `v`.
pub open spec fn fan(tris: Seq<u32>, v: int) -> Seq<SurroundingEntry> {
    incident(tris, v, tri_count(tris) as nat)
}

/// Two distinct vertices lie on a common triangle.
pub open spec fn shares_triangle(tris: Seq<u32>, a: int, b: int) -> bool {
    a != b && exists|t: int| 0 <= t < tri_count(tris) && touches(tris, t, a) && touches(tris, t, b)
}

pub proof fn lemma_incident_len_mono(tris: Seq<u32>, v: int, m1: nat, m2: nat)
    requires
        m1 <= m2,
    ensures
        incident(tris, v, m1).len() <= incident(tris, v, m2).len(),
    decreases m2,
{
    if m1 < m2 {
        lemma_incident_len_mono(tris, v, m1, (m2 - 1) as nat);
    }
}

/// Every entry around `v` comes from a triangle before `m` that touches `v`, and the
/// corners rise strictly.
pub proof fn lemma_incident_shape(tris: Seq<u32>, v: int, m: nat)
    requires
        m <= u32::MAX,
    ensures
        forall|i: int|
            0 <= i < incident(tris, v, m).len() ==> {
                let e = #[trigger] incident(tris, v, m)[i];
                &&& e.corner < m
                &&& touches(tris, e.corner as int, v)
                &&& e == entry_for(tris, v, e.corner as int)
            },
        forall|i: int, j: int|
            0 <= i < j < incident(tris, v, m).len() ==> (#[trigger] incident(tris, v, m)[i]).corner
                < (#[trigger] incident(tris, v, m)[j]).corner,
    decreases m,
{
    if m > 0 {
        lemma_incident_shape(tris, v, (m - 1) as nat);
        let p = incident(tris, v, (m - 1) as nat);
        if touches(tris, m - 1, v) {
            let q = p.push(entry_for(tris, v, m - 1));
            assert(q[p.len() as int].corner == m - 1);
            assert forall|i: int| 0 <= i < p.len() implies q[i] == p[i] by {}
        }
    }
}

/// Each triangle before `m` that touches `v` has its entry around `v`.
pub proof fn lemma_incident_complete(tris: Seq<u32>, v: int, m: nat, t: int)
    requires
        0 <= t < m,
        touches(tris, t, v),
    ensures
        exists|i: int|
            0 <= i < incident(tris, v, m).len() && #[trigger] incident(tris, v, m)[i]
                == entry_for(tris, v, t),
    decreases m,
{
    let p = incident(tris, v, (m - 1) as nat);
    if t < m - 1 {
        lemma_incident_complete(tris, v, (m - 1) as nat, t);
        let i = choose|i: int| 0 <= i < p.len() && #[trigger] p[i] == entry_for(tris, v, t);
        if touches(tris, m - 1, v) {
            let q = p.push(entry_for(tris, v, m - 1));
            assert(q == incident(tris, v, m));
            assert(q[i] == entry_for(tris, v, t));
        } else {
            assert(p == incident(tris, v, m));
        }
    } else {
        let q = p.push(entry_for(tris, v, t));
        assert(q == incident(tris, v, m));
        assert(q[p.len() as int] == entry_for(tris, v, t));
    }
}

/// Why a triangulation has no dual mesh.
#[derive(Copy, Clone, Debug, PartialEq, Eq, Structural)]
pub enum TessellationError {
    /// The index list is not whole triangles of three distinct, existing points.
    BadTriangle,
    /// More than six triangles meet at one vertex.
    TooManyCorners,
    /// The triangles around one vertex do not close into a single cycle.
    OpenCycle,
}

/// Checks that `tris` holds whole triangles of three distinct points below `n`.
pub fn check_triangles(tris: &Vec<u32>, n: usize) -> (r: bool)
    ensures
        r == valid_triangles(tris@, n as int),
{
    if tris.len() % 3 != 0 {
        return false;
    }
    let mut i: usize = 0;
    while i < tris.len()
        invariant
            0 <= i <= tris.len(),
            forall|j: int| 0 <= j < i ==> #[trigger] tris@[j] < n,
        decreases tris.len() - i,
    {
        if tris[i] as usize >= n {
            return false;
        }
        i = i + 1;
    }
    let len = tris.len();
    let count = len / 3;
    assert(tris@.len() == 3 * count);
    let mut t: usize = 0;
    while t < count
        invariant
            count == tri_count(tris@),
            len == tris@.len(),
            tris@.len() == 3 * count,
            0 <= t <= count,
            forall|j: int| 0 <= j < tris.len() ==> #[trigger] tris@[j] < n,
            forall|u: int| 0 <= u < t ==> #[trigger] proper_triangle(tris@, u),
        decreases count - t,
    {
        assert(3 * t + 2 < tris@.len());
        let base: usize = 3 * t;
        let a = tris[base];
        let b = tris[base + 1];
        let c = tris[base + 2];
        assert(tri(tris@, t as int, 0) == a && tri(tris@, t as int, 1) == b && tri(tris@, t as int, 2)
            == c);
        if a == b || b == c || a == c {
            assert(!proper_triangle(tris@, t as int));
            return false;
        }
        assert(proper_triangle(tris@, t as int));
        t = t + 1;
    }
    true
}

/// Records triangle `t = (a, b, c)` around each of its three vertices.
fn add_triangle_entries(
    lists: &mut Vec<ArrayVec<SurroundingEntry, 6>>,
    a: u32,
    b: u32,
    c: u32,
    t: u32,
) -> (r: bool)
    requires
        a < old(lists).len(),
        b < old(lists).len(),
        c < old(lists).len(),
        a != b && b != c && a != c,
    ensures
        final(lists).len() == old(lists).len(),
        r == (entries_of(old(lists)[a as int]).len() < 6 && entries_of(old(lists)[b as int]).len()
            < 6 && entries_of(old(lists)[c as int]).len() < 6),
        r ==> {
            &&& entries_of(final(lists)[a as int]) == entries_of(old(lists)[a as int]).push(
                SurroundingEntry { start: b, end: c, corner: t },
            )
            &&& entries_of(final(lists)[b as int]) == entries_of(old(lists)[b as int]).push(
                SurroundingEntry { start: c, end: a, corner: t },
            )
            &&& entries_of(final(lists)[c as int]) == entries_of(old(lists)[c as int]).push(
                SurroundingEntry { start: a, end: b, corner: t },
            )
            &&& forall|v: int|
                0 <= v < old(lists).len() && v != a && v != b && v != c ==> final(lists)[v]
                    == old(lists)[v]
        },
{
    if entries_len(&lists[a as usize]) >= MAX_CORNERS || entries_len(&lists[b as usize])
        >= MAX_CORNERS || entries_len(&lists[c as usize]) >= MAX_CORNERS {
        return false;
    }
    entries_push(&mut lists[a as usize], SurroundingEntry { start: b, end: c, corner: t });
    entries_push(&mut lists[b as usize], SurroundingEntry { start: c, end: a, corner: t });
    entries_push(&mut lists[c as usize], SurroundingEntry { start: a, end: b, corner: t });
    true
}

/// `order` visits every entry of `s` once, starting from the last one, so that each
/// entry's end is the start of the entry after it, cyclically.
#[verifier::opaque]
pub open spec fn chained(s: Seq<SurroundingEntry>, order: Seq<int>) -> bool {
    &&& s.len() > 0
    &&& order.len() == s.len()
    &&& order[0] == s.len() - 1
    &&& forall|i: int| 0 <= i < order.len() ==> 0 <= #[trigger] order[i] < s.len()
    &&& forall|i: int, j: int| 0 <= i < j < order.len() ==> order[i] != order[j]
    &&& forall|k: int| 0 <= k < s.len() ==> #[trigger] order.contains(k)
    &&& forall|i: int|
        0 <= i < order.len() ==> s[#[trigger] order[i]].end == s[order[(i + 1) % (order.len() as int)]].start
}

/// No two entries start at the same vertex.
pub open spec fn starts_distinct(s: Seq<SurroundingEntry>) -> bool {
    forall|i: int, j: int| 0 <= i < j < s.len() ==> s[i].start != s[j].start
}

/// The entries around a vertex form one closed cycle.
pub open spec fn closes(s: Seq<SurroundingEntry>) -> bool {
    starts_distinct(s) && exists|order: Seq<int>| chained(s, order)
}

/// Checks that no two entries of `list` start at the same vertex.
fn check_starts(list: &ArrayVec<SurroundingEntry, 6>) -> (r: bool)
    ensures
        r == starts_distinct(entries_of(*list)),
{
    let ghost s = entries_of(*list);
    let n = entries_len(list);
    let mut i: usize = 0;
    while i < n
        invariant
            n == s.len(),
            s == entries_of(*list),
            0 <= i <= n,
            forall|a: int, b: int| 0 <= a < i && a < b < n ==> s[a].start != s[b].start,
        decreases n - i,
    {
        let mut j: usize = i + 1;
        while j < n
            invariant
                n == s.len(),
                s == entries_of(*list),
                0 <= i < n,
                i + 1 <= j <= n,
                forall|a: int, b: int| 0 <= a < i && a < b < n ==> s[a].start != s[b].start,
                forall|b: int| i < b < j ==> s[i as int].start != s[b].start,
            decreases n - j,
        {
            if entries_get(list, i).start == entries_get(list, j).start {
                return false;
            }
            j = j + 1;
        }
        i = i + 1;
    }
    true
}

/// `ord` and `rest` together list each index below `n` exactly once.
#[verifier::opaque]
pub open spec fn partition(ord: Seq<int>, rest: Seq<int>, n: int) -> bool {
    &&& ord.len() + rest.len() == n
    &&& forall|i: int| 0 <= i < ord.len() ==> 0 <= #[trigger] ord[i] < n
    &&& forall|j: int| 0 <= j < rest.len() ==> 0 <= #[trigger] rest[j] < n
    &&& forall|i: int, j: int| 0 <= i < j < ord.len() ==> ord[i] != ord[j]
    &&& forall|i: int, j: int| 0 <= i < j < rest.len() ==> rest[i] != rest[j]
    &&& forall|i: int, j: int| 0 <= i < ord.len() && 0 <= j < rest.len() ==> ord[i] != rest[j]
    &&& forall|k: int| 0 <= k < n ==> ord.contains(k) || rest.contains(k)
}

proof fn lemma_partition_start(n: int)
    requires
        n > 0,
    ensures
        partition(seq![n - 1], Seq::new((n - 1) as nat, |k: int| k), n),
{
    reveal(partition);
    let ord = seq![n - 1];
    let rest = Seq::new((n - 1) as nat, |k: int| k);
    assert forall|k: int| 0 <= k < n implies ord.contains(k) || rest.contains(k) by {
        if k == n - 1 {
            assert(ord[0] == k);
        } else {
            assert(rest[k] == k);
        }
    }
}

proof fn lemma_partition_step(ord: Seq<int>, rest: Seq<int>, n: int, p: int)
    requires
        partition(ord, rest, n),
        0 <= p < rest.len(),
    ensures
        partition(ord.push(rest[p]), rest.remove(p), n),
        !ord.contains(rest[p]),
        0 <= rest[p] < n,
{
    reveal(partition);
    let o2 = ord.push(rest[p]);
    let r2 = rest.remove(p);
    assert forall|q: int| 0 <= q < n implies o2.contains(q) || r2.contains(q) by {
        if ord.contains(q) {
            let i = choose|i: int| 0 <= i < ord.len() && ord[i] == q;
            assert(o2[i] == q);
        } else {
            let j = choose|j: int| 0 <= j < rest.len() && rest[j] == q;
            if j < p {
                assert(r2[j] == q);
            } else if j > p {
                assert(r2[j - 1] == q);
            } else {
                assert(o2[ord.len() as int] == q);
            }
        }
    }
}

proof fn lemma_partition_facts(ord: Seq<int>, rest: Seq<int>, n: int)
    requires
        partition(ord, rest, n),
    ensures
        ord.len() + rest.len() == n,
        forall|i: int| 0 <= i < ord.len() ==> 0 <= #[trigger] ord[i] < n,
        forall|i: int, j: int| 0 <= i < j < ord.len() ==> ord[i] != ord[j],
        forall|j: int| 0 <= j < rest.len() ==> 0 <= #[trigger] rest[j] < n,
        forall|k: int| 0 <= k < n ==> ord.contains(k) || rest.contains(k),
        forall|k: int| 0 <= k < n && !ord.contains(k) ==> rest.contains(k),
{
    reveal(partition);
}

/// Where the walk of `order_fan` may stand on a closing cycle `o`: having taken the
/// first `ord.len()` entries of `o`, the next one is the remaining entry that starts
/// where the last one taken ends.
proof fn lemma_next_on_cycle(s: Seq<SurroundingEntry>, o: Seq<int>, ord: Seq<int>, rest: Seq<int>)
    requires
        chained(s, o),
        starts_distinct(s),
        partition(ord, rest, s.len() as int),
        ord.len() >= 1,
        rest.len() >= 1,
        ord =~= o.take(ord.len() as int),
    ensures
        exists|j: int| 0 <= j < rest.len() && #[trigger] rest[j] == o[ord.len() as int],
        s[o[ord.len() as int]].start == s[ord.last()].end,
        forall|x: int| 0 <= x < s.len() && s[x].start == s[ord.last()].end ==> x == o[ord.len() as int],
{
    reveal(chained);
    let k = ord.len() as int;
    let n = s.len() as int;
    lemma_partition_facts(ord, rest, n);
    assert(o[k - 1] == ord[k - 1]);
    vstd::arithmetic::div_mod::lemma_small_mod(k as nat, n as nat);
    assert(s[o[k - 1]].end == s[o[(k - 1 + 1) % n]].start);
    let target = o[k];
    assert(!ord.contains(target)) by {
        if ord.contains(target) {
            let i = choose|i: int| 0 <= i < ord.len() && ord[i] == target;
            assert(o[i] == target);
        }
    }
    assert(rest.contains(target));
    assert forall|x: int| 0 <= x < n && s[x].start == s[ord.last()].end implies x == target by {
        if x < target {
            assert(s[x].start != s[target].start);
        } else if x > target {
            assert(s[target].start != s[x].start);
        }
    }
}

proof fn lemma_chained_basic(s: Seq<SurroundingEntry>, o: Seq<int>)
    requires
        chained(s, o),
    ensures
        s.len() > 0,
        o.len() == s.len(),
        o[0] == s.len() - 1,
        forall|i: int| 0 <= i < o.len() ==> 0 <= #[trigger] o[i] < s.len(),
        forall|i: int, j: int| 0 <= i < j < o.len() ==> o[i] != o[j],
{
    reveal(chained);
}

/// A walk that took every entry, each starting where the previous one ended, and
/// that ends where it began, is a cycle.
proof fn lemma_walk_closed(s: Seq<SurroundingEntry>, ord: Seq<int>)
    requires
        s.len() > 0,
        ord.len() == s.len(),
        ord[0] == s.len() - 1,
        forall|i: int| 0 <= i < ord.len() ==> 0 <= #[trigger] ord[i] < s.len(),
        forall|i: int, j: int| 0 <= i < j < ord.len() ==> ord[i] != ord[j],
        forall|k: int| 0 <= k < s.len() ==> ord.contains(k),
        forall|i: int| 0 <= i < ord.len() - 1 ==> s[ord[i]].end == s[#[trigger] ord[i + 1]].start,
        s[ord.last()].end == s[ord[0]].start,
    ensures
        chained(s, ord),
{
    reveal(chained);
    let n = s.len() as int;
    assert forall|i: int| 0 <= i < ord.len() implies s[#[trigger] ord[i]].end == s[ord[(i + 1) % n]].start by {
        if i < n - 1 {
            vstd::arithmetic::div_mod::lemma_small_mod((i + 1) as nat, n as nat);
        } else {
            vstd::arithmetic::div_mod::lemma_mod_self_0(n);
        }
    }
}

/// A walk that has followed a whole cycle ends where it began.
proof fn lemma_walk_end(s: Seq<SurroundingEntry>, o: Seq<int>, ord: Seq<int>)
    requires
        chained(s, o),
        ord.len() == s.len(),
        ord =~= o.take(ord.len() as int),
    ensures
        s[ord.last()].end == s[ord[0]].start,
{
    reveal(chained);
    let n = s.len() as int;
    assert(ord =~= o);
    vstd::arithmetic::div_mod::lemma_mod_self_0(n);
    assert(s[o[n - 1]].end == s[o[(n - 1 + 1) % n]].start);
}

/// Walks the entries around one vertex into cyclic order, starting from the last
/// entry and each time taking the entry that starts where the previous one ended.
/// Returns the corners (triangle indices) and the neighbouring vertices (the start
/// of each entry) in that order, or `None` when the entries do not form one cycle.
#[verifier::rlimit(40)]
pub fn order_fan(list: ArrayVec<SurroundingEntry, 6>) -> (r: Option<(Vec<u32>, Vec<u32>)>)
    ensures
        r is Some <==> closes(entries_of(list)),
        r matches Some((c, nb)) ==> exists|order: Seq<int>|
            {
                &&& #[trigger] chained(entries_of(list), order)
                &&& c@.len() == order.len()
                &&& nb@.len() == order.len()
                &&& forall|i: int|
                    0 <= i < order.len() ==> c@[i] == entries_of(list)[order[i]].corner
                        && nb@[i] == entries_of(list)[order[i]].start
            },
{
    let ghost s = entries_of(list);
    let mut rem = list;
    let n = entries_len(&rem);
    if n == 0 {
        proof {
            if closes(s) {
                let o = choose|o: Seq<int>| chained(s, o);
                lemma_chained_basic(s, o);
            }
        }
        return None;
    }
    if !check_starts(&rem) {
        return None;
    }
    let ghost big_o = choose|o: Seq<int>| chained(s, o);
    proof {
        if closes(s) {
            lemma_chained_basic(s, big_o);
        }
    }
    let e0 = entries_remove(&mut rem, n - 1);
    let first = e0.start;
    let mut next = e0.end;
    let mut corners: Vec<u32> = Vec::new();
    let mut nbs: Vec<u32> = Vec::new();
    corners.push(e0.corner);
    nbs.push(e0.start);
    let ghost mut ord: Seq<int> = seq![n - 1];
    let ghost mut rem_idx: Seq<int> = Seq::new((n - 1) as nat, |k: int| k);
    assert(entries_of(rem) =~= s.take(n - 1));
    proof {
        lemma_partition_start(n as int);
    }
    while entries_len(&rem) > 0
        invariant
            s == entries_of(list),
            s.len() == n,
            n > 0,
            starts_distinct(s),
            closes(s) ==> chained(s, big_o) && big_o.len() == n && big_o[0] == n - 1,
            entries_of(rem).len() == rem_idx.len(),
            partition(ord, rem_idx, n as int),
            ord.len() >= 1,
            ord[0] == n - 1,
            forall|j: int|
                0 <= j < rem_idx.len() ==> entries_of(rem)[j] == s[#[trigger] rem_idx[j]],
            corners@.len() == ord.len(),
            nbs@.len() == ord.len(),
            forall|i: int|
                0 <= i < ord.len() ==> corners@[i] == s[#[trigger] ord[i]].corner && nbs@[i]
                    == s[ord[i]].start,
            forall|i: int|
                0 <= i < ord.len() - 1 ==> s[ord[i]].end == s[#[trigger] ord[i + 1]].start,
            next == s[ord.last()].end,
            first == s[ord[0]].start,
            closes(s) ==> ord =~= big_o.take(ord.len() as int),
        decreases entries_of(rem).len(),
    {
        let m = entries_len(&rem);
        let mut p: usize = 0;
        while p < m && entries_get(&rem, p).start != next
            invariant
                m == entries_of(rem).len(),
                0 <= p <= m,
                forall|j: int| 0 <= j < p ==> entries_of(rem)[j].start != next,
            decreases m - p,
        {
            p = p + 1;
        }
        if p == m {
            proof {
                if closes(s) {
                    lemma_next_on_cycle(s, big_o, ord, rem_idx);
                    let j = choose|j: int|
                        0 <= j < rem_idx.len() && #[trigger] rem_idx[j] == big_o[ord.len() as int];
                    assert(entries_of(rem)[j] == s[rem_idx[j]]);
                    assert(entries_of(rem)[j].start == next);
                    assert(false);
                }
            }
            return None;
        }
        let ghost old_rem = entries_of(rem);
        let e = entries_remove(&mut rem, p);
        proof {
            let idx = rem_idx[p as int];
            if closes(s) {
                lemma_next_on_cycle(s, big_o, ord, rem_idx);
                lemma_partition_facts(ord, rem_idx, n as int);
                assert(idx == big_o[ord.len() as int]);
            }
            lemma_partition_step(ord, rem_idx, n as int, p as int);
            let old_ord = ord;
            let old_idx = rem_idx;
            ord = ord.push(idx);
            rem_idx = rem_idx.remove(p as int);
            assert forall|j: int| 0 <= j < rem_idx.len() implies entries_of(rem)[j] == s[#[trigger] rem_idx[j]] by {
                if j < p {
                    assert(rem_idx[j] == old_idx[j]);
                } else {
                    assert(rem_idx[j] == old_idx[j + 1]);
                }
            }
            if closes(s) {
                assert(ord =~= big_o.take(ord.len() as int));
            }
        }
        next = e.end;
        corners.push(e.corner);
        nbs.push(e.start);
    }
    proof {
        lemma_partition_facts(ord, rem_idx, n as int);
    }
    if next != first {
        proof {
            if closes(s) {
                lemma_walk_end(s, big_o, ord);
            }
        }
        return None;
    }
    proof {
        lemma_walk_closed(s, ord);
        assert(chained(s, ord) && corners@.len() == ord.len() && nbs@.len() == ord.len());
    }
    Some((corners, nbs))
}

/// A place in the output vertex buffer, which holds the corner points first and the
/// tile centres after them.
#[derive(Copy, Clone, Debug, PartialEq, Eq, Structural)]
pub enum Index {
    /// An index among all points, that is among the corner points.
    All(u32),
    /// An index among the tile centres, counted from the end of the corner points.
    Mid(u32),
}

/// Where an index lands once the corner points, `mid` of them, come first.
pub open spec fn resolved(i: Index, mid: int) -> int {
    match i {
        Index::All(x) => x as int,
        Index::Mid(x) => x + mid,
    }
}

impl Index {
    /// The index into the whole vertex buffer, given the number of corner points.
    pub fn resolve(self, mid: u32) -> (r: u32)
        requires
            resolved(self, mid as int) <= u32::MAX,
        ensures
            r == resolved(self, mid as int),
    {
        match self {
            Index::All(x) => x,
            Index::Mid(x) => x + mid,
        }
    }
}

/// The triangles of one tile: a fan from its centre through each pair of consecutive
/// corners, cyclically.
pub open spec fn tile_fan(c: Seq<u32>, center: int) -> Seq<u32> {
    Seq::new(
        3 * c.len(),
        |j: int|
            if j % 3 == 0 {
                center as u32
            } else if j % 3 == 1 {
                c[j / 3]
            } else {
                c[(j / 3 + 1) % (c.len() as int)]
            },
    )
}

/// The triangle index buffer of the first `m` tiles, tile `v` having its centre at
/// `mid + v`.
pub open spec fn mesh_indices(tiles: Seq<Seq<u32>>, mid: int, m: nat) -> Seq<u32>
    decreases m,
{
    if m == 0 {
        Seq::empty()
    } else {
        mesh_indices(tiles, mid, (m - 1) as nat) + tile_fan(tiles[m - 1], mid + m - 1)
    }
}

/// The per-point material indices of a fresh mesh: 0 for the `corners` corner points,
/// then 1 for each of the `centers` tile centres.
pub open spec fn initial_materials(corners: int, centers: int) -> Seq<i32> {
    Seq::new((corners + centers) as nat, |i: int| if i < corners { 0i32 } else { 1i32 })
}

/// `c` is the corners of the tile of `v`, in the cyclic order of the fan around `v`.
pub open spec fn ordered_tile(tris: Seq<u32>, v: int, c: Seq<u32>) -> bool {
    exists|order: Seq<int>|
        #[trigger] chained(fan(tris, v), order) && c.len() == order.len() && forall|i: int|
            0 <= i < order.len() ==> c[i] == fan(tris, v)[order[i]].corner
}

/// `nb` lists, once each, exactly the vertices below `n` that share a triangle with `v`.
pub open spec fn neighbour_list(tris: Seq<u32>, n: int, v: int, nb: Seq<u32>) -> bool {
    &&& forall|i: int| 0 <= i < nb.len() ==> #[trigger] nb[i] < n && nb[i] != v
    &&& forall|i: int, j: int| 0 <= i < j < nb.len() ==> nb[i] != nb[j]
    &&& forall|w: int| 0 <= w < n ==> (nb.contains(w as u32) <==> #[trigger] shares_triangle(tris, v, w))
}

/// No vertex has more than six triangles around it.
pub open spec fn fans_fit(tris: Seq<u32>, n: int) -> bool {
    forall|v: int| 0 <= v < n ==> #[trigger] fan(tris, v).len() <= 6
}

/// The triangles around every vertex close into one cycle.
pub open spec fn fans_close(tris: Seq<u32>, n: int) -> bool {
    forall|v: int| 0 <= v < n ==> #[trigger] closes(fan(tris, v))
}

proof fn lemma_shares_symmetric(tris: Seq<u32>, a: int, b: int)
    requires
        shares_triangle(tris, a, b),
    ensures
        shares_triangle(tris, b, a),
{
    let t = choose|t: int| 0 <= t < tri_count(tris) && touches(tris, t, a) && touches(tris, t, b);
}

/// The facts that `lemma_fan_neighbours` starts from.
pub open spec fn fan_walk(tris: Seq<u32>, n: int, v: int, order: Seq<int>, nb: Seq<u32>) -> bool {
    &&& valid_triangles(tris, n)
    &&& tri_count(tris) <= u32::MAX
    &&& 0 <= v < n <= u32::MAX
    &&& starts_distinct(fan(tris, v))
    &&& chained(fan(tris, v), order)
    &&& nb.len() == order.len()
    &&& forall|i: int| 0 <= i < order.len() ==> nb[i] == fan(tris, v)[order[i]].start
}

proof fn lemma_fan_start_shares(tris: Seq<u32>, n: int, v: int, order: Seq<int>, nb: Seq<u32>, i: int)
    requires
        fan_walk(tris, n, v, order, nb),
        0 <= i < nb.len(),
    ensures
        nb[i] < n,
        nb[i] != v,
        shares_triangle(tris, v, nb[i] as int),
{
    reveal(chained);
    let s = fan(tris, v);
    let m = tri_count(tris) as nat;
    lemma_incident_shape(tris, v, m);
    let e = s[order[i]];
    let t = e.corner as int;
    assert(proper_triangle(tris, t));
    assert(tris.len() == 3 * tri_count(tris));
    assert(tris[3 * t] < n && tris[3 * t + 1] < n && tris[3 * t + 2] < n);
    assert(touches(tris, t, v) && touches(tris, t, nb[i] as int));
}

proof fn lemma_fan_starts_distinct(tris: Seq<u32>, n: int, v: int, order: Seq<int>, nb: Seq<u32>)
    requires
        fan_walk(tris, n, v, order, nb),
    ensures
        forall|i: int, j: int| 0 <= i < j < nb.len() ==> nb[i] != nb[j],
{
    let s = fan(tris, v);
    lemma_chained_basic(s, order);
    assert forall|i: int, j: int| 0 <= i < j < nb.len() implies nb[i] != nb[j] by {
        if order[i] < order[j] {
            assert(s[order[i]].start != s[order[j]].start);
        } else {
            assert(s[order[j]].start != s[order[i]].start);
        }
    }
}

proof fn lemma_fan_covers(tris: Seq<u32>, n: int, v: int, order: Seq<int>, nb: Seq<u32>, w: int)
    requires
        fan_walk(tris, n, v, order, nb),
        0 <= w < n,
        shares_triangle(tris, v, w),
    ensures
        nb.contains(w as u32),
{
    reveal(chained);
    let s = fan(tris, v);
    let m = tri_count(tris) as nat;
    let t = choose|t: int| 0 <= t < tri_count(tris) && touches(tris, t, v) && touches(tris, t, w);
    lemma_incident_complete(tris, v, m, t);
    let k = choose|k: int| 0 <= k < s.len() && #[trigger] s[k] == entry_for(tris, v, t);
    assert(order.contains(k));
    let i = choose|i: int| 0 <= i < order.len() && order[i] == k;
    assert(tris.len() == 3 * tri_count(tris));
    assert(tris[3 * t] < n && tris[3 * t + 1] < n && tris[3 * t + 2] < n);
    if s[k].start == w as u32 {
        assert(nb[i] == w as u32);
    } else {
        let i2 = (i + 1) % (order.len() as int);
        assert(s[order[i]].end == s[order[i2]].start);
        assert(nb[i2] == w as u32);
    }
}

/// The starts of a closed fan around `v`, in cycle order, are the neighbours of `v`.
proof fn lemma_fan_neighbours(tris: Seq<u32>, n: int, v: int, order: Seq<int>, nb: Seq<u32>)
    requires
        fan_walk(tris, n, v, order, nb),
    ensures
        neighbour_list(tris, n, v, nb),
{
    assert forall|i: int| 0 <= i < nb.len() implies #[trigger] nb[i] < n && nb[i] != v by {
        lemma_fan_start_shares(tris, n, v, order, nb, i);
    }
    lemma_fan_starts_distinct(tris, n, v, order, nb);
    assert forall|w: int| 0 <= w < n implies (nb.contains(w as u32) <==> #[trigger] shares_triangle(tris, v, w)) by {
        if nb.contains(w as u32) {
            let i = choose|i: int| 0 <= i < nb.len() && nb[i] == w as u32;
            lemma_fan_start_shares(tris, n, v, order, nb, i);
        }
        if shares_triangle(tris, v, w) {
            lemma_fan_covers(tris, n, v, order, nb, w);
        }
    }
}

/// Appends the fan of the tile whose corners are `c` and whose centre is tile centre
/// `v`, the `mid` corner points coming first in the vertex buffer.
fn push_tile_fan(indices: &mut Vec<u32>, c: &Vec<u32>, v: u32, mid: u32)
    requires
        c.len() > 0,
        v + mid <= u32::MAX,
    ensures
        final(indices)@ == old(indices)@ + tile_fan(c@, v + mid),
{
    let k = c.len();
    let center = Index::Mid(v).resolve(mid);
    let ghost start = old(indices)@;
    let mut i: usize = 0;
    while i < k
        invariant
            k == c.len(),
            k > 0,
            center == v + mid,
            0 <= i <= k,
            indices@ == start + tile_fan(c@, center as int).take(3 * i),
        decreases k - i,
    {
        let next = if i + 1 == k { 0 } else { i + 1 };
        indices.push(center);
        indices.push(Index::All(c[i]).resolve(mid));
        indices.push(Index::All(c[next]).resolve(mid));
        proof {
            let f = tile_fan(c@, center as int);
            vstd::arithmetic::div_mod::lemma_fundamental_div_mod_converse(3 * i as int, 3, i as int, 0);
            vstd::arithmetic::div_mod::lemma_fundamental_div_mod_converse(3 * i + 1, 3, i as int, 1);
            vstd::arithmetic::div_mod::lemma_fundamental_div_mod_converse(3 * i + 2, 3, i as int, 2);
            if i + 1 == k {
                vstd::arithmetic::div_mod::lemma_mod_self_0(k as int);
            } else {
                vstd::arithmetic::div_mod::lemma_small_mod((i + 1) as nat, k as nat);
            }
            assert(f.take(3 * (i + 1)) =~= f.take(3 * i).push(center).push(c@[i as int]).push(
                c@[next as int],
            ));
        }
        i = i + 1;
    }
    assert(tile_fan(c@, center as int).take(3 * k) =~= tile_fan(c@, center as int));
}

proof fn lemma_mesh_prefix(t1: Seq<Seq<u32>>, t2: Seq<Seq<u32>>, mid: int, m: nat)
    requires
        m <= t1.len(),
        m <= t2.len(),
        forall|i: int| 0 <= i < m ==> t1[i] == t2[i],
    ensures
        mesh_indices(t1, mid, m) == mesh_indices(t2, mid, m),
    decreases m,
{
    if m > 0 {
        lemma_mesh_prefix(t1, t2, mid, (m - 1) as nat);
    }
}

/// The dual mesh of a triangulation: tile `v` stands for base vertex `v`, and corner
/// point `t` is the centroid of base triangle `t`.
pub struct Tessellation {
    /// The number of corner points, one per base triangle; they come first in the
    /// vertex buffer, and the tile centres after them.
    pub corner_count: usize,
    /// The corners of each tile, in cyclic order.
    pub tiles: Vec<Vec<u32>>,
    /// The triangle index buffer: each tile as a fan from its centre.
    pub indices: Vec<u32>,
    /// One material index per point of the vertex buffer.
    pub face_materials: Vec<i32>,
    /// Which tiles touch.
    pub graph: AdjacencyGraph,
}

impl Tessellation {
    /// This is the dual mesh of the triangles `tris` over `n` points.
    pub open spec fn dual_of(&self, tris: Seq<u32>, n: int) -> bool {
        &&& valid_triangles(tris, n)
        &&& fans_fit(tris, n)
        &&& self.corner_count == tri_count(tris)
        &&& self.tiles.len() == n
        &&& forall|v: int| 0 <= v < n ==> ordered_tile(tris, v, #[trigger] self.tiles@[v]@)
        &&& self.indices@ == mesh_indices(
            lists_view(self.tiles@),
            self.corner_count as int,
            n as nat,
        )
        &&& self.face_materials@ == initial_materials(self.corner_count as int, n)
        &&& self.graph.wf()
        &&& self.graph@.len() == n
        &&& forall|a: int, b: int|
            0 <= a < n && 0 <= b < n ==> (#[trigger] has_edge(self.graph@, a, b) <==> shares_triangle(
                tris,
                a,
                b,
            ))
    }
}

impl Tessellation {
    /// An edge between two hexagonal tiles, to calibrate the size of tiles by; `None`
    /// when no two hexagons touch.
    pub fn calibration_edge(&self) -> (r: Option<(u32, u32)>)
        requires
            self.graph.wf(),
            self.graph@.len() == self.tiles@.len(),
        ensures
            r matches Some((a, b)) ==> has_edge(self.graph@, a as int, b as int)
                && self.tiles@[a as int]@.len() == 6 && self.tiles@[b as int]@.len() == 6,
            r is None ==> forall|a: int, b: int|
                #[trigger] has_edge(self.graph@, a, b) ==> !(self.tiles@[a]@.len() == 6
                    && self.tiles@[b]@.len() == 6),
    {
        let n = self.tiles.len();
        let mut a: usize = 0;
        while a < n
            invariant
                self.graph.wf(),
                n == self.tiles@.len(),
                self.graph@.len() == n,
                0 <= a <= n,
                forall|x: int, y: int|
                    0 <= x < a && #[trigger] has_edge(self.graph@, x, y) ==> !(self.tiles@[x]@.len()
                        == 6 && self.tiles@[y]@.len() == 6),
            decreases n - a,
        {
            if self.tiles[a].len() == 6 {
                let nbs = self.graph.neighbours(a);
                let mut q: usize = 0;
                while q < nbs.len()
                    invariant
                        self.graph.wf(),
                        n == self.tiles@.len(),
                        self.graph@.len() == n,
                        a < n,
                        self.tiles@[a as int]@.len() == 6,
                        nbs@ == self.graph@[a as int],
                        0 <= q <= nbs@.len(),
                        forall|p: int| 0 <= p < q ==> self.tiles@[nbs@[p] as int]@.len() != 6,
                    decreases nbs@.len() - q,
                {
                    let b = nbs[q];
                    assert(self.graph@[a as int][q as int] == b);
                    if self.tiles[b as usize].len() == 6 {
                        assert(has_edge(self.graph@, a as int, b as int));
                        return Some((a as u32, b));
                    }
                    q = q + 1;
                }
                proof {
                    assert forall|y: int| #[trigger] has_edge(self.graph@, a as int, y) implies self.tiles@[y]@.len() != 6 by {
                        let p = choose|p: int| 0 <= p < nbs@.len() && nbs@[p] == y as u32;
                    }
                }
            }
            a = a + 1;
        }
        None
    }
}

/// Builds the dual mesh of the triangles `tris` over `n` points.
pub fn tessellate(tris: &Vec<u32>, n: usize) -> (r: Result<Tessellation, TessellationError>)
    requires
        tris@.len() / 3 + n <= u32::MAX,
    ensures
        (r == Err::<Tessellation, TessellationError>(TessellationError::BadTriangle)) <==> !valid_triangles(
            tris@,
            n as int,
        ),
        (r == Err::<Tessellation, TessellationError>(TessellationError::TooManyCorners)) <==> (
        valid_triangles(tris@, n as int) && !fans_fit(tris@, n as int)),
        (r == Err::<Tessellation, TessellationError>(TessellationError::OpenCycle)) <==> (
        valid_triangles(tris@, n as int) && fans_fit(tris@, n as int) && !fans_close(
            tris@,
            n as int,
        )),
        r matches Ok(m) ==> m.dual_of(tris@, n as int),
{
    if !check_triangles(tris, n) {
        return Err(TessellationError::BadTriangle);
    }
    let ntris = tris.len() / 3;
    let ghost ts = tris@;
    assert(ts.len() == 3 * ntris);
    let mut lists: Vec<ArrayVec<SurroundingEntry, 6>> = Vec::new();
    let mut v: usize = 0;
    while v < n
        invariant
            0 <= v <= n,
            lists.len() == v,
            forall|u: int| 0 <= u < v ==> entries_of(#[trigger] lists@[u]) == incident(ts, u, 0),
        decreases n - v,
    {
        lists.push(entries_new());
        v = v + 1;
    }
    let mut t: usize = 0;
    let len = tris.len();
    while t < ntris
        invariant
            len == tris@.len(),
            ts == tris@,
            ts.len() == 3 * ntris,
            ntris + n <= u32::MAX,
            valid_triangles(ts, n as int),
            0 <= t <= ntris,
            lists.len() == n,
            forall|u: int|
                0 <= u < n ==> entries_of(#[trigger] lists@[u]) == incident(ts, u, t as nat),
            forall|u: int| 0 <= u < n ==> entries_of(#[trigger] lists@[u]).len() <= 6,
        decreases ntris - t,
    {
        assert(3 * t + 2 < ts.len());
        let base: usize = 3 * t;
        let a = tris[base];
        let b = tris[base + 1];
        let c = tris[base + 2];
        assert(tri(ts, t as int, 0) == a && tri(ts, t as int, 1) == b && tri(ts, t as int, 2) == c);
        assert(proper_triangle(ts, t as int));
        let ghost before = lists@;
        if !add_triangle_entries(&mut lists, a, b, c, t as u32) {
            proof {
                let x: int = if entries_of(before[a as int]).len() >= 6 {
                    a as int
                } else if entries_of(before[b as int]).len() >= 6 {
                    b as int
                } else {
                    c as int
                };
                assert(touches(ts, t as int, x));
                assert(incident(ts, x, (t + 1) as nat).len() == 7);
                lemma_incident_len_mono(ts, x, (t + 1) as nat, ntris as nat);
                assert(fan(ts, x).len() > 6);
            }
            return Err(TessellationError::TooManyCorners);
        }
        proof {
            assert forall|u: int| 0 <= u < n implies entries_of(#[trigger] lists@[u]) == incident(
                ts,
                u,
                (t + 1) as nat,
            ) by {
                if u == a as int {
                    assert(entry_for(ts, u, t as int) == SurroundingEntry { start: b, end: c, corner: t as u32 });
                } else if u == b as int {
                    assert(entry_for(ts, u, t as int) == SurroundingEntry { start: c, end: a, corner: t as u32 });
                } else if u == c as int {
                    assert(entry_for(ts, u, t as int) == SurroundingEntry { start: a, end: b, corner: t as u32 });
                } else {
                    assert(!touches(ts, t as int, u));
                }
            }
        }
        t = t + 1;
    }
    assert(fans_fit(ts, n as int)) by {
        assert forall|u: int| 0 <= u < n implies #[trigger] fan(ts, u).len() <= 6 by {
            assert(entries_of(lists@[u]) == fan(ts, u));
        }
    }
    let mid = ntris as u32;
    let mut tiles: Vec<Vec<u32>> = Vec::new();
    let mut adj: Vec<Vec<u32>> = Vec::new();
    let mut indices: Vec<u32> = Vec::new();
    let mut v: usize = 0;
    while v < n
        invariant
            ts == tris@,
            ts.len() == 3 * ntris,
            ntris + n <= u32::MAX,
            mid == ntris,
            valid_triangles(ts, n as int),
            0 <= v <= n,
            lists.len() == n,
            forall|u: int| v <= u < n ==> entries_of(#[trigger] lists@[u]) == fan(ts, u),
            fans_fit(ts, n as int),
            tiles.len() == v,
            adj.len() == v,
            forall|u: int| 0 <= u < v ==> ordered_tile(ts, u, #[trigger] tiles@[u]@),
            forall|u: int| 0 <= u < v ==> neighbour_list(ts, n as int, u, #[trigger] adj@[u]@),
            forall|u: int| 0 <= u < v ==> #[trigger] closes(fan(ts, u)),
            indices@ == mesh_indices(lists_view(tiles@), ntris as int, v as nat),
        decreases n - v,
    {
        let mut cur = entries_new();
        std::mem::swap(&mut cur, &mut lists[v]);
        match order_fan(cur) {
            None => {
                assert(!closes(fan(ts, v as int)));
                return Err(TessellationError::OpenCycle);
            },
            Some((c, nb)) => {
                proof {
                    let s = fan(ts, v as int);
                    let order = choose|order: Seq<int>|
                        {
                            &&& #[trigger] chained(s, order)
                            &&& c@.len() == order.len()
                            &&& nb@.len() == order.len()
                            &&& forall|i: int|
                                0 <= i < order.len() ==> c@[i] == s[order[i]].corner && nb@[i]
                                    == s[order[i]].start
                        };
                    lemma_chained_basic(s, order);
                    lemma_fan_neighbours(ts, n as int, v as int, order, nb@);
                    assert(ordered_tile(ts, v as int, c@));
                }
                let ghost old_tiles = tiles@;
                push_tile_fan(&mut indices, &c, v as u32, mid);
                tiles.push(c);
                adj.push(nb);
                proof {
                    lemma_mesh_prefix(
                        lists_view(tiles@),
                        lists_view(old_tiles),
                        ntris as int,
                        v as nat,
                    );
                }
            },
        }
        v = v + 1;
    }
    let mut face_materials: Vec<i32> = Vec::new();
    let total = ntris + n;
    let mut i: usize = 0;
    while i < total
        invariant
            total == ntris + n,
            0 <= i <= total,
            face_materials@ =~= initial_materials(ntris as int, n as int).take(i as int),
        decreases total - i,
    {
        if i < ntris {
            face_materials.push(0);
        } else {
            face_materials.push(1);
        }
        i = i + 1;
    }
    assert(face_materials@ =~= initial_materials(ntris as int, n as int));
    proof {
        let g = lists_view(adj@);
        assert forall|a: int, b: int| #[trigger] has_edge(g, a, b) implies has_edge(g, b, a) by {
            assert(neighbour_list(ts, n as int, a, adj@[a]@));
            assert(neighbour_list(ts, n as int, b, adj@[b]@));
            lemma_shares_symmetric(ts, a, b);
        }
        assert forall|a: int, i: int| 0 <= a < g.len() && 0 <= i < g[a].len() implies #[trigger] g[a][i]
            < g.len() && g[a][i] != a by {
            assert(neighbour_list(ts, n as int, a, adj@[a]@));
        }
        assert forall|a: int, i: int, j: int| 0 <= a < g.len() && 0 <= i < j < g[a].len() implies #[trigger] g[a][i]
            != #[trigger] g[a][j] by {
            assert(neighbour_list(ts, n as int, a, adj@[a]@));
        }
    }
    let graph = AdjacencyGraph::from_lists(adj);
    proof {
        assert forall|a: int, b: int| 0 <= a < n && 0 <= b < n implies (#[trigger] has_edge(graph@, a, b)
            <==> shares_triangle(ts, a, b)) by {
            assert(neighbour_list(ts, n as int, a, adj@[a]@));
        }
    }
    Ok(Tessellation { corner_count: ntris, tiles, indices, face_materials, graph })
}

/// The index buffer of a mesh holds whole triangles, three indices each, and only
/// indices of its own points: the corner points and then one centre per tile.
pub proof fn lemma_mesh_indices_whole(tris: Seq<u32>, n: int, m: &Tessellation)
    requires
        m.dual_of(tris, n),
        tri_count(tris) + n <= u32::MAX,
    ensures
        m.indices@.len() % 3 == 0,
        m.face_materials@.len() == m.corner_count + n,
        forall|i: int| 0 <= i < m.indices@.len() ==> #[trigger] m.indices@[i] < m.corner_count + n,
{
    let tiles = lists_view(m.tiles@);
    assert forall|v: int| 0 <= v < n implies forall|j: int|
        0 <= j < (#[trigger] tiles[v]).len() ==> tiles[v][j] < m.corner_count by {
        assert(ordered_tile(tris, v, m.tiles@[v]@));
        let s = fan(tris, v);
        let order = choose|order: Seq<int>|
            #[trigger] chained(s, order) && m.tiles@[v]@.len() == order.len() && forall|i: int|
                0 <= i < order.len() ==> m.tiles@[v]@[i] == s[order[i]].corner;
        lemma_chained_basic(s, order);
        lemma_incident_shape(tris, v, tri_count(tris) as nat);
    }
    lemma_mesh_indices_shape(tiles, m.corner_count as int, n as nat);
}

proof fn lemma_mesh_indices_shape(tiles: Seq<Seq<u32>>, mid: int, m: nat)
    requires
        m <= tiles.len(),
        mid >= 0,
        mid + m <= u32::MAX + 1,
        forall|v: int| 0 <= v < m ==> forall|j: int| 0 <= j < (#[trigger] tiles[v]).len() ==> tiles[v][j] < mid,
    ensures
        mesh_indices(tiles, mid, m).len() % 3 == 0,
        forall|i: int| 0 <= i < mesh_indices(tiles, mid, m).len() ==> #[trigger] mesh_indices(tiles, mid, m)[i] < mid + m,
    decreases m,
{
    if m > 0 {
        lemma_mesh_indices_shape(tiles, mid, (m - 1) as nat);
        let p = mesh_indices(tiles, mid, (m - 1) as nat);
        let c = tiles[m - 1];
        let f = tile_fan(c, mid + m - 1);
        assert forall|j: int| 0 <= j < f.len() implies #[trigger] f[j] < mid + m by {
            if j % 3 != 0 && c.len() > 0 {
                vstd::arithmetic::div_mod::lemma_div_pos_is_pos(j, 3);
                vstd::arithmetic::div_mod::lemma_div_is_ordered_by_denominator(j, 1, 3);
                assert(j / 3 < c.len()) by {
                    vstd::arithmetic::div_mod::lemma_div_by_multiple_is_strongly_ordered(j, 3 * c.len() as int, c.len() as int, 3);
                }
                vstd::arithmetic::div_mod::lemma_mod_bound(j / 3 + 1, c.len() as int);
            }
        }
        assert forall|i: int| 0 <= i < mesh_indices(tiles, mid, m).len() implies #[trigger] mesh_indices(tiles, mid, m)[i] < mid + m by {
            if i < p.len() {
                assert(mesh_indices(tiles, mid, m)[i] == p[i]);
            } else {
                assert(mesh_indices(tiles, mid, m)[i] == f[i - p.len()]);
            }
        }
    }
}

/// The number of entries around the first `k` vertices, counting the first `m`
/// triangles.
pub open spec fn valence_sum(tris: Seq<u32>, k: nat, m: nat) -> int
    decreases k,
{
    if k == 0 {
        0
    } else {
        valence_sum(tris, (k - 1) as nat, m) + incident(tris, k - 1, m).len()
    }
}

/// How many of the first `k` vertices triangle `t` touches.
pub open spec fn touch_count(tris: Seq<u32>, t: int, k: nat) -> int
    decreases k,
{
    if k == 0 {
        0
    } else {
        touch_count(tris, t, (k - 1) as nat) + if touches(tris, t, k - 1) {
            1int
        } else {
            0
        }
    }
}

proof fn lemma_touch_count(tris: Seq<u32>, t: int, k: nat)
    requires
        proper_triangle(tris, t),
    ensures
        touch_count(tris, t, k) == (if tri(tris, t, 0) < k { 1int } else { 0 }) + (if tri(tris, t, 1)
            < k { 1int } else { 0 }) + (if tri(tris, t, 2) < k { 1int } else { 0 }),
    decreases k,
{
    if k > 0 {
        lemma_touch_count(tris, t, (k - 1) as nat);
    }
}

proof fn lemma_valence_step(tris: Seq<u32>, k: nat, t: nat)
    ensures
        valence_sum(tris, k, t + 1) == valence_sum(tris, k, t) + touch_count(tris, t as int, k),
    decreases k,
{
    if k > 0 {
        lemma_valence_step(tris, (k - 1) as nat, t);
        assert(incident(tris, k - 1, t + 1) == (if touches(tris, t as int, k - 1) {
            incident(tris, k - 1, t).push(entry_for(tris, k - 1, t as int))
        } else {
            incident(tris, k - 1, t)
        }));
    }
}

proof fn lemma_valence_zero(tris: Seq<u32>, k: nat)
    ensures
        valence_sum(tris, k, 0) == 0,
    decreases k,
{
    if k > 0 {
        lemma_valence_zero(tris, (k - 1) as nat);
    }
}

/// Each triangle has three vertices, so the fans around the vertices hold three
/// entries per triangle in all.
pub proof fn lemma_valence_total(tris: Seq<u32>, n: int, m: nat)
    requires
        valid_triangles(tris, n),
        m <= tri_count(tris),
    ensures
        valence_sum(tris, n as nat, m) == 3 * m,
    decreases m,
{
    if m > 0 {
        let t = (m - 1) as nat;
        lemma_valence_total(tris, n, t);
        lemma_valence_step(tris, n as nat, t);
        assert((t + 1) as nat == m);
        assert(proper_triangle(tris, t as int));
        assert(tris.len() == 3 * tri_count(tris));
        let ti = t as int;
        assert(tris[3 * ti] < n && tris[3 * ti + 1] < n && tris[3 * ti + 2] < n);
        lemma_touch_count(tris, ti, n as nat);
        assert(touch_count(tris, t as int, n as nat) == 3);
    } else {
        lemma_valence_zero(tris, n as nat);
    }
}

/// The number of corners over the first `k` tiles.
pub open spec fn corner_total(tiles: Seq<Seq<u32>>, k: nat) -> int
    decreases k,
{
    if k == 0 {
        0
    } else {
        corner_total(tiles, (k - 1) as nat) + tiles[k - 1].len()
    }
}

/// A tile has one corner per triangle around its vertex.
pub proof fn lemma_tile_len(tris: Seq<u32>, v: int, c: Seq<u32>)
    requires
        ordered_tile(tris, v, c),
    ensures
        c.len() == fan(tris, v).len(),
{
    let order = choose|order: Seq<int>|
        #[trigger] chained(fan(tris, v), order) && c.len() == order.len() && forall|i: int|
            0 <= i < order.len() ==> c[i] == fan(tris, v)[order[i]].corner;
    lemma_chained_basic(fan(tris, v), order);
}

proof fn lemma_corner_total_prefix(tris: Seq<u32>, tiles: Seq<Seq<u32>>, k: nat)
    requires
        k <= tiles.len(),
        forall|v: int| 0 <= v < k ==> ordered_tile(tris, v, #[trigger] tiles[v]),
    ensures
        corner_total(tiles, k) == valence_sum(tris, k, tri_count(tris) as nat),
    decreases k,
{
    if k > 0 {
        lemma_corner_total_prefix(tris, tiles, (k - 1) as nat);
        lemma_tile_len(tris, k - 1, tiles[k - 1]);
    }
}

/// Every corner point is a corner of exactly three tiles: over all tiles there are
/// three corners per base triangle.
pub proof fn lemma_corner_total(tris: Seq<u32>, n: int, m: &Tessellation)
    requires
        m.dual_of(tris, n),
    ensures
        corner_total(lists_view(m.tiles@), n as nat) == 3 * m.corner_count,
{
    let tiles = lists_view(m.tiles@);
    assert forall|v: int| 0 <= v < n implies ordered_tile(tris, v, #[trigger] tiles[v]) by {
        assert(ordered_tile(tris, v, m.tiles@[v]@));
    }
    lemma_corner_total_prefix(tris, tiles, n as nat);
    lemma_valence_total(tris, n, tri_count(tris) as nat);
}

} // verus!
