//! The graph of joinable tables, shortest join paths, and join plans.
use vstd::prelude::*;
use crate::text::contains_string;

verus! {

// ── The graph ────────────────────────────────────────────────────────────────

/// Two tables that can be joined, and the ON condition that joins them.
#[derive(Debug)]
pub struct JoinEdge {
    pub a: String,
    pub b: String,
    pub on_cond: String,
}

/// The text of a list of edges: (a, b, on condition).
pub open spec fn graph_view(g: Seq<JoinEdge>) -> Seq<(Seq<char>, Seq<char>, Seq<char>)> {
    g.map_values(|e: JoinEdge| (e.a@, e.b@, e.on_cond@))
}

/// A path as text: each step's table and the ON condition that reaches it.
pub open spec fn path_view(p: Seq<(String, String)>) -> Seq<(Seq<char>, Seq<char>)> {
    p.map_values(|x: (String, String)| (x.0@, x.1@))
}

/// Edge `e` leads from `x` to `y` (in either direction) with condition `on`.
pub open spec fn edge_links(
    e: (Seq<char>, Seq<char>, Seq<char>),
    x: Seq<char>,
    y: Seq<char>,
    on: Seq<char>,
) -> bool {
    ((e.0 == x && e.1 == y) || (e.1 == x && e.0 == y)) && e.2 == on
}

/// Some edge of `g` leads from `x` to `y` with condition `on`.
pub open spec fn step(
    g: Seq<(Seq<char>, Seq<char>, Seq<char>)>,
    x: Seq<char>,
    y: Seq<char>,
    on: Seq<char>,
) -> bool {
    exists|e: int| 0 <= e < g.len() && #[trigger] edge_links(g[e], x, y, on)
}

/// `p` is a join path out of the tables `s`: its first step leaves a table
/// of `s`, each further step leaves the table of the step before, and no step
/// enters a table of `s`.
pub open spec fn is_path(
    g: Seq<(Seq<char>, Seq<char>, Seq<char>)>,
    s: Seq<Seq<char>>,
    p: Seq<(Seq<char>, Seq<char>)>,
) -> bool {
    &&& p.len() >= 1
    &&& exists|k: int| 0 <= k < s.len() && #[trigger] step(g, s[k], p[0].0, p[0].1)
    &&& forall|i: int| 1 <= i < p.len() ==> #[trigger] step(g, p[i - 1].0, p[i].0, p[i].1)
    &&& forall|i: int| 0 <= i < p.len() ==> !s.contains(#[trigger] p[i].0)
}

/// `p` is a join path out of `s` that ends at table `t`.
pub open spec fn is_path_to(
    g: Seq<(Seq<char>, Seq<char>, Seq<char>)>,
    s: Seq<Seq<char>>,
    p: Seq<(Seq<char>, Seq<char>)>,
    t: Seq<char>,
) -> bool {
    is_path(g, s, p) && p.last().0 == t
}

/// `x` is a table of `s`, or reachable from `s` in at most `d` steps.
pub open spec fn near(
    g: Seq<(Seq<char>, Seq<char>, Seq<char>)>,
    s: Seq<Seq<char>>,
    x: Seq<char>,
    d: int,
) -> bool {
    d >= 0 && (s.contains(x) || exists|p: Seq<(Seq<char>, Seq<char>)>|
        #[trigger] is_path_to(g, s, p, x) && p.len() <= d)
}

/// Every table that an edge of `g` names.
pub open spec fn endpoints(g: Seq<(Seq<char>, Seq<char>, Seq<char>)>) -> Seq<Seq<char>> {
    g.map_values(|e: (Seq<char>, Seq<char>, Seq<char>)| e.0) + g.map_values(
        |e: (Seq<char>, Seq<char>, Seq<char>)| e.1,
    )
}

// ── Facts about paths ────────────────────────────────────────────────────────

/// A path followed by one more step is a path.
proof fn lemma_extend(
    g: Seq<(Seq<char>, Seq<char>, Seq<char>)>,
    s: Seq<Seq<char>>,
    p: Seq<(Seq<char>, Seq<char>)>,
    x: Seq<char>,
    on: Seq<char>,
)
    requires
        is_path(g, s, p),
        step(g, p.last().0, x, on),
        !s.contains(x),
    ensures
        is_path_to(g, s, p.push((x, on)), x),
        p.push((x, on)).len() == p.len() + 1,
{
    let q = p.push((x, on));
    let k = choose|k: int| 0 <= k < s.len() && #[trigger] step(g, s[k], p[0].0, p[0].1);
    assert(step(g, s[k], q[0].0, q[0].1));
    assert forall|i: int| 1 <= i < q.len() implies #[trigger] step(g, q[i - 1].0, q[i].0, q[i].1) by {
        if i < p.len() {
            assert(step(g, p[i - 1].0, p[i].0, p[i].1));
        }
    }
    assert forall|i: int| 0 <= i < q.len() implies !s.contains(#[trigger] q[i].0) by {
        if i < p.len() {
            assert(!s.contains(p[i].0));
        }
    }
}

/// One step out of a table of `s` is a path.
proof fn lemma_single(
    g: Seq<(Seq<char>, Seq<char>, Seq<char>)>,
    s: Seq<Seq<char>>,
    k: int,
    x: Seq<char>,
    on: Seq<char>,
)
    requires
        0 <= k < s.len(),
        step(g, s[k], x, on),
        !s.contains(x),
    ensures
        is_path_to(g, s, seq![(x, on)], x),
{
    let q = seq![(x, on)];
    assert(step(g, s[k], q[0].0, q[0].1));
}

/// The first `k` steps of a path are a path.
proof fn lemma_prefix(
    g: Seq<(Seq<char>, Seq<char>, Seq<char>)>,
    s: Seq<Seq<char>>,
    q: Seq<(Seq<char>, Seq<char>)>,
    k: int,
)
    requires
        is_path(g, s, q),
        1 <= k <= q.len(),
    ensures
        is_path_to(g, s, q.take(k), q[k - 1].0),
{
    let p = q.take(k);
    let j = choose|j: int| 0 <= j < s.len() && #[trigger] step(g, s[j], q[0].0, q[0].1);
    assert(step(g, s[j], p[0].0, p[0].1));
    assert forall|i: int| 1 <= i < p.len() implies #[trigger] step(g, p[i - 1].0, p[i].0, p[i].1) by {
        assert(step(g, q[i - 1].0, q[i].0, q[i].1));
    }
    assert forall|i: int| 0 <= i < p.len() implies !s.contains(#[trigger] p[i].0) by {
        assert(!s.contains(q[i].0));
    }
}

/// A path to the table of step `k - 1`, followed by the steps of `q` from
/// `k` on, is a path to where `q` ends.
proof fn lemma_splice(
    g: Seq<(Seq<char>, Seq<char>, Seq<char>)>,
    s: Seq<Seq<char>>,
    q: Seq<(Seq<char>, Seq<char>)>,
    k: int,
    r: Seq<(Seq<char>, Seq<char>)>,
)
    requires
        is_path(g, s, q),
        1 <= k < q.len(),
        is_path_to(g, s, r, q[k - 1].0),
    ensures
        is_path_to(g, s, r + q.skip(k), q.last().0),
        (r + q.skip(k)).len() == r.len() + q.len() - k,
{
    let p = r + q.skip(k);
    let j = choose|j: int| 0 <= j < s.len() && #[trigger] step(g, s[j], r[0].0, r[0].1);
    assert(step(g, s[j], p[0].0, p[0].1));
    assert forall|i: int| 1 <= i < p.len() implies #[trigger] step(g, p[i - 1].0, p[i].0, p[i].1) by {
        if i < r.len() {
            assert(step(g, r[i - 1].0, r[i].0, r[i].1));
        } else if i == r.len() {
            assert(step(g, q[k - 1].0, q[k].0, q[k].1));
        } else {
            let m = i - r.len() + k;
            assert(step(g, q[m - 1].0, q[m].0, q[m].1));
        }
    }
    assert forall|i: int| 0 <= i < p.len() implies !s.contains(#[trigger] p[i].0) by {
        if i < r.len() {
            assert(!s.contains(r[i].0));
        } else {
            assert(!s.contains(q[i - r.len() + k].0));
        }
    }
}

/// When no table is exactly `d` steps away from `s`, every table that a path
/// reaches is at most `d` steps away.
proof fn lemma_exhausted(
    g: Seq<(Seq<char>, Seq<char>, Seq<char>)>,
    s: Seq<Seq<char>>,
    d: int,
    t: Seq<char>,
    q: Seq<(Seq<char>, Seq<char>)>,
)
    requires
        d >= 0,
        forall|x: Seq<char>| #[trigger] near(g, s, x, d) ==> near(g, s, x, d - 1),
        is_path_to(g, s, q, t),
    ensures
        exists|p: Seq<(Seq<char>, Seq<char>)>| #[trigger] is_path_to(g, s, p, t) && p.len() <= d,
    decreases q.len(),
{
    if q.len() <= d {
    } else if d == 0 {
        let k = choose|k: int| 0 <= k < s.len() && #[trigger] step(g, s[k], q[0].0, q[0].1);
        assert(s.contains(s[k]));
        assert(near(g, s, s[k], 0));
    } else {
        let z = q[d - 1].0;
        lemma_prefix(g, s, q, d);
        assert(near(g, s, z, d));
        assert(!s.contains(q[d - 1].0));
        let r = choose|r: Seq<(Seq<char>, Seq<char>)>| #[trigger] is_path_to(g, s, r, z) && r.len() <= d - 1;
        lemma_splice(g, s, q, d, r);
        lemma_exhausted(g, s, d, t, r + q.skip(d));
    }
}

/// What a list holds after a push.
proof fn lemma_push_contains(a: Seq<Seq<char>>, x: Seq<char>, y: Seq<char>)
    ensures
        a.push(x).contains(y) <==> (a.contains(y) || y == x),
{
    if a.contains(y) {
        let k = choose|k: int| 0 <= k < a.len() && a[k] == y;
        assert(a.push(x)[k] == y);
    }
    if y == x {
        assert(a.push(x)[a.len() as int] == y);
    }
    if a.push(x).contains(y) {
        let k = choose|k: int| 0 <= k < a.len() + 1 && a.push(x)[k] == y;
        if k < a.len() {
            assert(a[k] == y);
        }
    }
}

/// Both tables of every edge are endpoints.
proof fn lemma_endpoints(g: Seq<(Seq<char>, Seq<char>, Seq<char>)>, m: int)
    requires
        0 <= m < g.len(),
    ensures
        endpoints(g).contains(g[m].0),
        endpoints(g).contains(g[m].1),
{
    let e0 = g.map_values(|e: (Seq<char>, Seq<char>, Seq<char>)| e.0);
    let e1 = g.map_values(|e: (Seq<char>, Seq<char>, Seq<char>)| e.1);
    assert(endpoints(g)[m] == e0[m]);
    assert(endpoints(g)[g.len() + m] == e1[m - 0]);
}

/// A list without repeats drawn from the graph's tables is no longer than
/// the number of distinct tables.
proof fn lemma_added_bound(g: Seq<(Seq<char>, Seq<char>, Seq<char>)>, a: Seq<Seq<char>>)
    requires
        a.no_duplicates(),
        forall|i: int| 0 <= i < a.len() ==> endpoints(g).contains(#[trigger] a[i]),
    ensures
        a.len() <= endpoints(g).to_set().len(),
{
    a.unique_seq_to_set();
    assert(a.to_set().subset_of(endpoints(g).to_set()));
    vstd::seq_lib::seq_to_set_is_finite(endpoints(g));
    vstd::set_lib::lemma_len_subset(a.to_set(), endpoints(g).to_set());
}

// ── Breadth-first search ─────────────────────────────────────────────────────

/// A frontier entry as text: table and path.
pub open spec fn frontier_view(f: Seq<(String, Vec<(String, String)>)>) -> Seq<
    (Seq<char>, Seq<(Seq<char>, Seq<char>)>),
> {
    f.map_values(|e: (String, Vec<(String, String)>)| (e.0@, path_view(e.1@)))
}

/// A copy of a join path.
fn copy_path(p: &Vec<(String, String)>) -> (r: Vec<(String, String)>)
    ensures
        path_view(r@) == path_view(p@),
{
    let mut r: Vec<(String, String)> = Vec::new();
    let mut i: usize = 0;
    while i < p.len()
        invariant
            i <= p.len(),
            path_view(r@) == path_view(p@).take(i as int),
        decreases p.len() - i,
    {
        let x = p[i].0.clone();
        let y = p[i].1.clone();
        let ghost before = r@;
        r.push((x, y));
        assert(path_view(r@) =~= path_view(before).push((p@[i as int].0@, p@[i as int].1@)));
        i = i + 1;
        assert(path_view(r@) =~= path_view(p@).take(i as int));
    }
    assert(path_view(p@).take(p.len() as int) =~= path_view(p@));
    r
}

/// The table that step `i` of a walk leaves: the start table for the first
/// step, else the table the step before reached.
pub open spec fn walk_from(s: Seq<Seq<char>>, ks: Seq<int>, p: Seq<(Seq<char>, Seq<char>)>, i: int) -> Seq<char> {
    if i == 0 {
        s[ks[0]]
    } else {
        p[i - 1].0
    }
}

/// Step `i` of `p` takes edge `ks[i + 1]`.
pub open spec fn walk_step(
    g: Seq<(Seq<char>, Seq<char>, Seq<char>)>,
    s: Seq<Seq<char>>,
    ks: Seq<int>,
    p: Seq<(Seq<char>, Seq<char>)>,
    i: int,
) -> bool {
    0 <= ks[i + 1] < g.len() && edge_links(g[ks[i + 1]], walk_from(s, ks, p, i), p[i].0, p[i].1)
}

/// `ks` spells how `p` walks out of `s` to `x`: `ks[0]` is the position in
/// `s` of the table it starts from, and `ks[i + 1]` the position in `g` of
/// the edge that step `i` takes.
pub open spec fn walk_to(
    g: Seq<(Seq<char>, Seq<char>, Seq<char>)>,
    s: Seq<Seq<char>>,
    ks: Seq<int>,
    p: Seq<(Seq<char>, Seq<char>)>,
    x: Seq<char>,
) -> bool {
    &&& ks.len() == p.len() + 1
    &&& 0 <= ks[0] < s.len()
    &&& forall|i: int| 0 <= i < p.len() ==> #[trigger] walk_step(g, s, ks, p, i)
    &&& walk_from(s, ks, p, p.len() as int) == x
}

/// `a` comes no later than `b` in lexicographic order (for equally long
/// sequences).
pub open spec fn lex_le(a: Seq<int>, b: Seq<int>) -> bool
    decreases a.len(),
{
    if a.len() == 0 || b.len() == 0 {
        true
    } else if a[0] != b[0] {
        a[0] < b[0]
    } else {
        lex_le(a.drop_first(), b.drop_first())
    }
}

/// `a` comes strictly before `b` in lexicographic order.
pub open spec fn lex_lt(a: Seq<int>, b: Seq<int>) -> bool {
    lex_le(a, b) && a != b
}

/// Two non-empty sequences are equal exactly when their first elements and
/// their tails are.
proof fn lemma_seq_head_tail(a: Seq<int>, b: Seq<int>)
    requires
        a.len() == b.len(),
        a.len() > 0,
    ensures
        a == b <==> (a[0] == b[0] && a.drop_first() == b.drop_first()),
{
    assert(a =~= seq![a[0]] + a.drop_first());
    assert(b =~= seq![b[0]] + b.drop_first());
}

/// Lexicographic order is transitive.
proof fn lemma_lex_trans(a: Seq<int>, b: Seq<int>, c: Seq<int>)
    requires
        a.len() == b.len() == c.len(),
        lex_le(a, b),
        lex_le(b, c),
    ensures
        lex_le(a, c),
        lex_lt(a, b) || lex_lt(b, c) ==> lex_lt(a, c),
    decreases a.len(),
{
    if a.len() > 0 {
        lemma_seq_head_tail(a, b);
        lemma_seq_head_tail(b, c);
        lemma_seq_head_tail(a, c);
        if a[0] == b[0] && b[0] == c[0] {
            lemma_lex_trans(a.drop_first(), b.drop_first(), c.drop_first());
        } else {
            assert(a[0] < c[0]);
            assert(a != c);
        }
    } else {
        assert(a =~= b);
        assert(b =~= c);
    }
}

/// Lexicographic order is antisymmetric.
proof fn lemma_lex_antisym(a: Seq<int>, b: Seq<int>)
    requires
        a.len() == b.len(),
        lex_le(a, b),
        lex_le(b, a),
    ensures
        a == b,
    decreases a.len(),
{
    if a.len() > 0 {
        lemma_seq_head_tail(a, b);
        lemma_lex_antisym(a.drop_first(), b.drop_first());
    } else {
        assert(a =~= b);
    }
}

/// Lexicographic order is reflexive.
proof fn lemma_lex_refl(a: Seq<int>)
    ensures
        lex_le(a, a),
    decreases a.len(),
{
    if a.len() > 0 {
        lemma_lex_refl(a.drop_first());
    }
}

/// Extending two sequences in order by one element each: a strict order
/// stays, and equal sequences are ordered by the new elements.
proof fn lemma_lex_push(a: Seq<int>, b: Seq<int>, x: int, y: int)
    requires
        a.len() == b.len(),
        lex_lt(a, b) || (a == b && x <= y),
    ensures
        lex_le(a.push(x), b.push(y)),
        lex_lt(a, b) || x < y ==> lex_lt(a.push(x), b.push(y)),
    decreases a.len(),
{
    let ax = a.push(x);
    let by = b.push(y);
    if a.len() == 0 {
        assert(a =~= b);
        assert(ax.drop_first() =~= Seq::<int>::empty());
        assert(by.drop_first() =~= Seq::<int>::empty());
        assert(ax[0] == x && by[0] == y);
        assert(lex_le(ax.drop_first(), by.drop_first()));
        assert(lex_le(ax, by));
    } else {
        assert(ax.drop_first() =~= a.drop_first().push(x));
        assert(by.drop_first() =~= b.drop_first().push(y));
        assert(ax[0] == a[0] && by[0] == b[0]);
        lemma_seq_head_tail(a, b);
        if a[0] == b[0] {
            lemma_lex_push(a.drop_first(), b.drop_first(), x, y);
            assert(lex_le(ax, by));
        } else {
            assert(a[0] < b[0]);
            assert(lex_le(ax, by));
        }
    }
    if ax == by {
        assert(ax.drop_last() =~= a);
        assert(by.drop_last() =~= b);
        assert(ax.last() == x && by.last() == y);
    }
}

/// The walks of a search frontier: each entry's key spells its walk, and the
/// keys come in strictly increasing lexicographic order.
#[verifier::opaque]
spec fn keyed(
    g: Seq<(Seq<char>, Seq<char>, Seq<char>)>,
    s: Seq<Seq<char>>,
    fv: Seq<(Seq<char>, Seq<(Seq<char>, Seq<char>)>)>,
    fk: Seq<Seq<int>>,
) -> bool {
    &&& fk.len() == fv.len()
    &&& forall|j: int| 0 <= j < fv.len() ==> #[trigger] walk_to(g, s, fk[j], fv[j].1, fv[j].0)
    &&& forall|j1: int, j2: int|
        0 <= j1 < j2 < fv.len() ==> #[trigger] lex_lt(fk[j1], fk[j2])
}

/// Every table exactly `d` steps from `s` is in the frontier, under a key
/// that comes no later than any walk of `d` steps to it.
#[verifier::opaque]
spec fn frontier_first(
    g: Seq<(Seq<char>, Seq<char>, Seq<char>)>,
    s: Seq<Seq<char>>,
    fv: Seq<(Seq<char>, Seq<(Seq<char>, Seq<char>)>)>,
    fk: Seq<Seq<int>>,
    d: int,
) -> bool {
    forall|x: Seq<char>, ks: Seq<int>, q: Seq<(Seq<char>, Seq<char>)>|
        #[trigger] walk_to(g, s, ks, q, x) && q.len() == d && (d > 0 ==> is_path_to(g, s, q, x))
            && !near(g, s, x, d - 1) ==> exists|j: int|
            0 <= j < fv.len() && fv[j].0 == x && #[trigger] lex_le(fk[j], ks)
}

/// Each entry's key comes no later than any walk of `d` steps that is a
/// path to its table.
#[verifier::opaque]
spec fn entries_first(
    g: Seq<(Seq<char>, Seq<char>, Seq<char>)>,
    s: Seq<Seq<char>>,
    nv: Seq<(Seq<char>, Seq<(Seq<char>, Seq<char>)>)>,
    nk: Seq<Seq<int>>,
    d: int,
) -> bool {
    forall|k: int, ks: Seq<int>, q: Seq<(Seq<char>, Seq<char>)>|
        0 <= k < nv.len() && #[trigger] walk_to(g, s, ks, q, nv[k].0) && q.len() == d
            && is_path_to(g, s, q, nv[k].0) ==> lex_le(nk[k], ks)
}

/// The first frontier: the start tables, each under its position.
proof fn lemma_level_zero(
    g: Seq<(Seq<char>, Seq<char>, Seq<char>)>,
    s: Seq<Seq<char>>,
    fv: Seq<(Seq<char>, Seq<(Seq<char>, Seq<char>)>)>,
) -> (fk: Seq<Seq<int>>)
    requires
        fv.len() == s.len(),
        forall|j: int| 0 <= j < fv.len() ==> (#[trigger] fv[j]).0 == s[j] && fv[j].1.len() == 0,
    ensures
        keyed(g, s, fv, fk),
        frontier_first(g, s, fv, fk, 0),
{
    let fk = Seq::new(s.len(), |i: int| seq![i]);
    reveal(keyed);
    reveal(frontier_first);
    assert forall|j: int| 0 <= j < fv.len() implies #[trigger] walk_to(g, s, fk[j], fv[j].1, fv[j].0) by {
        assert(walk_from(s, fk[j], fv[j].1, 0) == s[j]);
    }
    assert forall|j1: int, j2: int| 0 <= j1 < j2 < fv.len() implies #[trigger] lex_lt(fk[j1], fk[j2]) by {
        assert(fk[j1][0] == j1 && fk[j2][0] == j2);
    }
    assert forall|x: Seq<char>, ks: Seq<int>, q: Seq<(Seq<char>, Seq<char>)>|
        #[trigger] walk_to(g, s, ks, q, x) && q.len() == 0 && (0 > 0 ==> is_path_to(g, s, q, x))
            && !near(g, s, x, 0 - 1) implies exists|j: int|
            0 <= j < fv.len() && fv[j].0 == x && #[trigger] lex_le(fk[j], ks) by {
        let j = ks[0];
        assert(ks =~= fk[j]);
        lemma_lex_refl(ks);
        assert(fv[j].0 == x);
    }
    fk
}

/// A table one step from a table at most `d - 1` steps away is at most `d`
/// steps away.
proof fn lemma_near_step(
    g: Seq<(Seq<char>, Seq<char>, Seq<char>)>,
    s: Seq<Seq<char>>,
    y: Seq<char>,
    x: Seq<char>,
    on: Seq<char>,
    d: int,
)
    requires
        near(g, s, y, d - 1),
        step(g, y, x, on),
        !s.contains(x),
    ensures
        near(g, s, x, d),
{
    if s.contains(y) {
        let k = choose|k: int| 0 <= k < s.len() && s[k] == y;
        lemma_single(g, s, k, x, on);
    } else {
        let r = choose|r: Seq<(Seq<char>, Seq<char>)>| #[trigger] is_path_to(g, s, r, y) && r.len() <= d - 1;
        lemma_extend(g, s, r, x, on);
    }
}

/// A table first reached from frontier entry `fi` along edge `m` (no earlier
/// entry, and no earlier edge of entry `fi`, leads to it) is reached by the
/// walk that comes first among the walks of `d + 1` steps that are paths to it.
proof fn lemma_found_first(
    g: Seq<(Seq<char>, Seq<char>, Seq<char>)>,
    s: Seq<Seq<char>>,
    fv: Seq<(Seq<char>, Seq<(Seq<char>, Seq<char>)>)>,
    fk: Seq<Seq<int>>,
    d: int,
    fi: int,
    m: int,
    x: Seq<char>,
    seen: Seq<Seq<char>>,
)
    requires
        d >= 0,
        0 <= fi < fv.len(),
        0 <= m < g.len(),
        keyed(g, s, fv, fk),
        frontier_first(g, s, fv, fk, d),
        forall|j: int| 0 <= j < fv.len() ==> (#[trigger] fv[j]).1.len() == d,
        edge_links(g[m], fv[fi].0, x, g[m].2),
        !s.contains(x),
        !seen.contains(x),
        !near(g, s, x, d),
        forall|j: int, y: Seq<char>, on: Seq<char>|
            0 <= j < fi && #[trigger] step(g, fv[j].0, y, on) ==> (s.contains(y) || seen.contains(y)),
        forall|e: int, y: Seq<char>|
            0 <= e < m && #[trigger] edge_links(g[e], fv[fi].0, y, g[e].2) ==> (s.contains(y)
                || seen.contains(y)),
    ensures
        walk_to(g, s, fk[fi].push(m), fv[fi].1.push((x, g[m].2)), x),
        forall|ks: Seq<int>, q: Seq<(Seq<char>, Seq<char>)>|
            #[trigger] walk_to(g, s, ks, q, x) && q.len() == d + 1 && is_path_to(g, s, q, x)
                ==> lex_le(fk[fi].push(m), ks),
{
    reveal(keyed);
    reveal(frontier_first);
    let key = fk[fi].push(m);
    let np = fv[fi].1.push((x, g[m].2));
    assert(walk_to(g, s, fk[fi], fv[fi].1, fv[fi].0));
    assert forall|i: int| 0 <= i < np.len() implies #[trigger] walk_step(g, s, key, np, i) by {
        if i < d {
            assert(walk_step(g, s, fk[fi], fv[fi].1, i));
            assert(walk_from(s, key, np, i) == walk_from(s, fk[fi], fv[fi].1, i));
        } else {
            assert(walk_from(s, key, np, i) == walk_from(s, fk[fi], fv[fi].1, d));
        }
    }
    assert(walk_to(g, s, key, np, x));
    assert forall|ks: Seq<int>, q: Seq<(Seq<char>, Seq<char>)>|
        #[trigger] walk_to(g, s, ks, q, x) && q.len() == d + 1 && is_path_to(g, s, q, x)
            implies lex_le(key, ks) by {
        let y = walk_from(s, ks, q, d);
        let ks1 = ks.take(d + 1);
        let q1 = q.take(d);
        let e2 = ks[d + 1];
        assert(walk_step(g, s, ks, q, d));
        assert(q[d].0 == x);
        assert(edge_links(g[e2], y, x, q[d].1));
        assert(step(g, y, x, q[d].1));
        assert forall|i: int| 0 <= i < q1.len() implies #[trigger] walk_step(g, s, ks1, q1, i) by {
            assert(walk_step(g, s, ks, q, i));
            assert(walk_from(s, ks1, q1, i) == walk_from(s, ks, q, i));
        }
        assert(walk_from(s, ks1, q1, d) == y);
        assert(walk_to(g, s, ks1, q1, y));
        if d > 0 {
            lemma_prefix(g, s, q, d);
            assert(q.take(d) == q1);
        }
        if near(g, s, y, d - 1) {
            lemma_near_step(g, s, y, x, q[d].1, d);
        }
        let j = choose|j: int| 0 <= j < fv.len() && fv[j].0 == y && #[trigger] lex_le(fk[j], ks1);
        if j < fi {
            assert(step(g, fv[j].0, x, q[d].1));
        }
        assert(ks1.push(e2) =~= ks);
        assert(walk_to(g, s, fk[j], fv[j].1, fv[j].0));
        if j > fi {
            assert(lex_lt(fk[fi], fk[j]));
            lemma_lex_trans(fk[fi], fk[j], ks1);
            lemma_lex_push(fk[fi], ks1, m, e2);
        } else {
            if e2 < m {
                assert(edge_links(g[e2], fv[fi].0, x, g[e2].2));
            }
            if fk[fi] == ks1 {
                lemma_lex_push(fk[fi], ks1, m, e2);
            } else {
                lemma_lex_push(fk[fi], ks1, m, e2);
            }
        }
    }
}

/// Adding a first-reached table to the next frontier keeps it keyed and
/// each of its entries first.
proof fn lemma_next_push(
    g: Seq<(Seq<char>, Seq<char>, Seq<char>)>,
    s: Seq<Seq<char>>,
    fv: Seq<(Seq<char>, Seq<(Seq<char>, Seq<char>)>)>,
    fk: Seq<Seq<int>>,
    nv: Seq<(Seq<char>, Seq<(Seq<char>, Seq<char>)>)>,
    nk: Seq<Seq<int>>,
    d: int,
    fi: int,
    m: int,
    last_p: int,
    last_e: int,
    x: Seq<char>,
    np: Seq<(Seq<char>, Seq<char>)>,
)
    requires
        keyed(g, s, nv, nk),
        entries_first(g, s, nv, nk, d + 1),
        forall|j: int| 0 <= j < nv.len() ==> (#[trigger] nv[j]).1.len() == d + 1,
        keyed(g, s, fv, fk),
        forall|j: int| 0 <= j < fv.len() ==> (#[trigger] fv[j]).1.len() == d,
        0 <= fi < fv.len(),
        nk.len() > 0 ==> 0 <= last_p <= fi && (last_p < fi || last_e < m) && nk.last() == fk[last_p].push(last_e),
        walk_to(g, s, fk[fi].push(m), np, x),
        forall|ks: Seq<int>, q: Seq<(Seq<char>, Seq<char>)>|
            #[trigger] walk_to(g, s, ks, q, x) && q.len() == d + 1 && is_path_to(g, s, q, x)
                ==> lex_le(fk[fi].push(m), ks),
    ensures
        keyed(g, s, nv.push((x, np)), nk.push(fk[fi].push(m))),
        entries_first(g, s, nv.push((x, np)), nk.push(fk[fi].push(m)), d + 1),
{
    reveal(keyed);
    reveal(entries_first);
    let key = fk[fi].push(m);
    let nv2 = nv.push((x, np));
    let nk2 = nk.push(key);
    assert forall|j: int| 0 <= j < fk.len() implies (#[trigger] fk[j]).len() == d + 1 by {
        assert(walk_to(g, s, fk[j], fv[j].1, fv[j].0));
    }
    if nk.len() > 0 {
        if last_p < fi {
            assert(lex_lt(fk[last_p], fk[fi]));
        }
        lemma_lex_push(fk[last_p], fk[fi], last_e, m);
    }
    assert forall|j1: int, j2: int| 0 <= j1 < j2 < nv2.len() implies #[trigger] lex_lt(nk2[j1], nk2[j2]) by {
        if j2 == nk.len() {
            if j1 < nk.len() - 1 {
                assert(walk_to(g, s, nk[j1], nv[j1].1, nv[j1].0));
                assert(walk_to(g, s, nk[nk.len() - 1], nv[nk.len() - 1].1, nv[nk.len() - 1].0));
                assert(lex_lt(nk[j1], nk[nk.len() - 1]));
                lemma_lex_trans(nk[j1], nk[nk.len() - 1], key);
            }
        } else {
            assert(lex_lt(nk[j1], nk[j2]));
        }
    }
    assert forall|j: int| 0 <= j < nv2.len() implies #[trigger] walk_to(g, s, nk2[j], nv2[j].1, nv2[j].0) by {
        if j < nv.len() {
            assert(walk_to(g, s, nk[j], nv[j].1, nv[j].0));
        }
    }
    assert forall|k: int, ks: Seq<int>, q: Seq<(Seq<char>, Seq<char>)>|
        0 <= k < nv2.len() && #[trigger] walk_to(g, s, ks, q, nv2[k].0) && q.len() == d + 1
            && is_path_to(g, s, q, nv2[k].0) implies lex_le(nk2[k], ks) by {
        if k < nv.len() {
            assert(walk_to(g, s, ks, q, nv[k].0));
        }
    }
}

/// The next frontier, once it holds every table exactly `d + 1` steps away,
/// is first for them.
proof fn lemma_next_level(
    g: Seq<(Seq<char>, Seq<char>, Seq<char>)>,
    s: Seq<Seq<char>>,
    nv: Seq<(Seq<char>, Seq<(Seq<char>, Seq<char>)>)>,
    nk: Seq<Seq<int>>,
    d: int,
)
    requires
        d >= 0,
        entries_first(g, s, nv, nk, d + 1),
        forall|x: Seq<char>|
            #[trigger] near(g, s, x, d + 1) && !near(g, s, x, d) ==> exists|m: int|
                0 <= m < nv.len() && #[trigger] nv[m].0 == x,
    ensures
        frontier_first(g, s, nv, nk, d + 1),
{
    reveal(frontier_first);
    reveal(entries_first);
    assert forall|x: Seq<char>, ks: Seq<int>, q: Seq<(Seq<char>, Seq<char>)>|
        #[trigger] walk_to(g, s, ks, q, x) && q.len() == d + 1 && (d + 1 > 0 ==> is_path_to(g, s, q, x))
            && !near(g, s, x, d + 1 - 1) implies exists|j: int|
            0 <= j < nv.len() && nv[j].0 == x && #[trigger] lex_le(nk[j], ks) by {
        assert(near(g, s, x, d + 1));
        let m = choose|m: int| 0 <= m < nv.len() && #[trigger] nv[m].0 == x;
        assert(walk_to(g, s, ks, q, nv[m].0));
        assert(lex_le(nk[m], ks));
    }
}

/// `p` is the path to `t` whose walk comes first: some walk of `p` comes no
/// later, in lexicographic order, than the walk of any path to `t` as long
/// as `p`.
pub open spec fn walks_first(
    g: Seq<(Seq<char>, Seq<char>, Seq<char>)>,
    s: Seq<Seq<char>>,
    p: Seq<(Seq<char>, Seq<char>)>,
    t: Seq<char>,
) -> bool {
    exists|ks: Seq<int>|
        #[trigger] walk_to(g, s, ks, p, t) && forall|ks2: Seq<int>, q: Seq<(Seq<char>, Seq<char>)>|
            #[trigger] walk_to(g, s, ks2, q, t) && is_path_to(g, s, q, t) && q.len() == p.len()
                ==> lex_le(ks, ks2)
}

/// A shortest join path from the tables `from_set` to `target`: `None` when
/// `target` is one of `from_set` or no path reaches it. Among the shortest
/// paths, the search takes its steps in the order of the tables of
/// `from_set` and then of the edges of `graph`.
pub fn bfs_path(graph: &Vec<JoinEdge>, from_set: &Vec<String>, target: &String) -> (r: Option<
    Vec<(String, String)>,
>)
    ensures
        match r {
            Some(p) => is_path_to(graph_view(graph@), from_set.deep_view(), path_view(p@), target@)
                && walks_first(graph_view(graph@), from_set.deep_view(), path_view(p@), target@)
                && forall|q: Seq<(Seq<char>, Seq<char>)>|
                #[trigger] is_path_to(graph_view(graph@), from_set.deep_view(), q, target@)
                    ==> path_view(p@).len() <= q.len(),
            None => forall|q: Seq<(Seq<char>, Seq<char>)>|
                !#[trigger] is_path_to(graph_view(graph@), from_set.deep_view(), q, target@),
        },
{
    let ghost g = graph_view(graph@);
    let ghost s = from_set.deep_view();
    let ghost t = target@;
    let ghost bound = endpoints(g).to_set().len();
    let mut added: Vec<String> = Vec::new();
    let mut frontier: Vec<(String, Vec<(String, String)>)> = Vec::new();
    let mut i: usize = 0;
    while i < from_set.len()
        invariant
            i <= from_set.len(),
            s == from_set.deep_view(),
            frontier.len() == i,
            forall|j: int|
                0 <= j < frontier.len() ==> (#[trigger] frontier_view(frontier@)[j]).1.len() == 0
                    && s.contains(frontier_view(frontier@)[j].0) && frontier_view(frontier@)[j].0 == s[j],
            forall|j: int|
                #![trigger s[j]]
                0 <= j < i ==> exists|m: int|
                    0 <= m < frontier.len() && #[trigger] frontier_view(frontier@)[m].0 == s[j],
        decreases from_set.len() - i,
    {
        let ghost before = frontier_view(frontier@);
        let n = from_set[i].clone();
        let empty: Vec<(String, String)> = Vec::new();
        assert(path_view(empty@) =~= Seq::<(Seq<char>, Seq<char>)>::empty());
        assert(n@ == s[i as int]);
        frontier.push((n, empty));
        assert(frontier_view(frontier@) =~= before.push((s[i as int], Seq::empty())));
        proof {
            assert(frontier_view(frontier@)[before.len() as int].0 == s[i as int]);
            assert forall|j: int| #![trigger s[j]] 0 <= j < i + 1 implies exists|m: int|
                0 <= m < frontier.len() && #[trigger] frontier_view(frontier@)[m].0 == s[j] by {
                if j < i {
                    let m = choose|m: int|
                        0 <= m < before.len() && #[trigger] before[m].0 == s[j];
                    assert(frontier_view(frontier@)[m].0 == s[j]);
                } else {
                    assert(frontier_view(frontier@)[before.len() as int].0 == s[j]);
                }
            }
        }
        i = i + 1;
    }
    let mut d: usize = 0;
    let ghost mut fk: Seq<Seq<int>> = Seq::empty();
    proof {
        fk = lemma_level_zero(g, s, frontier_view(frontier@));
        assert forall|x: Seq<char>| #[trigger] near(g, s, x, 0) implies (s.contains(x) || added.deep_view().contains(x)) by {
            if !s.contains(x) {
                let p = choose|p: Seq<(Seq<char>, Seq<char>)>|
                    #[trigger] is_path_to(g, s, p, x) && p.len() <= 0;
            }
        }
        assert(added.deep_view() =~= Seq::<Seq<char>>::empty());
    }
    while frontier.len() > 0
        invariant
            g == graph_view(graph@),
            s == from_set.deep_view(),
            t == target@,
            bound == endpoints(g).to_set().len(),
            added.deep_view().len() <= bound,
            d <= added.deep_view().len(),
            keyed(g, s, frontier_view(frontier@), fk),
            frontier_first(g, s, frontier_view(frontier@), fk, d as int),
            // Entries of the frontier: paths of length d.
            forall|j: int|
                0 <= j < frontier.len() ==> (#[trigger] frontier_view(frontier@)[j]).1.len() == d
                    && (d == 0 ==> s.contains(frontier_view(frontier@)[j].0)) && (d > 0
                    ==> is_path_to(g, s, frontier_view(frontier@)[j].1, frontier_view(frontier@)[j].0)),
            // The visited tables are those at most d steps away.
            forall|x: Seq<char>|
                #[trigger] near(g, s, x, d as int) <==> (s.contains(x) || added.deep_view().contains(x)),
            // The frontier holds every table exactly d steps away.
            forall|x: Seq<char>|
                #[trigger] near(g, s, x, d as int) && !near(g, s, x, d - 1) ==> exists|m: int|
                    0 <= m < frontier.len() && #[trigger] frontier_view(frontier@)[m].0 == x,
            !added.deep_view().contains(t),
            added.deep_view().no_duplicates(),
            forall|k: int|
                0 <= k < added.len() ==> endpoints(g).contains(#[trigger] added.deep_view()[k]) && !s.contains(
                    added.deep_view()[k],
                ),
        decreases 2 * (bound - added.deep_view().len()) + if frontier.len() > 0 {
            1int
        } else {
            0int
        },
    {
        let ghost fv = frontier_view(frontier@);
        let ghost added0 = added.deep_view();
        let mut next: Vec<(String, Vec<(String, String)>)> = Vec::new();
        let ghost mut nk: Seq<Seq<int>> = Seq::empty();
        let ghost mut last_p: int = 0;
        let ghost mut last_e: int = 0;
        assert(keyed(g, s, frontier_view(next@), nk) && entries_first(g, s, frontier_view(next@), nk, d + 1)) by {
            reveal(keyed);
            reveal(entries_first);
        }
        let mut fi: usize = 0;
        while fi < frontier.len()
            invariant
                g == graph_view(graph@),
                s == from_set.deep_view(),
                t == target@,
                bound == endpoints(g).to_set().len(),
                fv == frontier_view(frontier@),
                fi <= frontier.len(),
                d <= added0.len(),
                keyed(g, s, fv, fk),
                frontier_first(g, s, fv, fk, d as int),
                keyed(g, s, frontier_view(next@), nk),
                entries_first(g, s, frontier_view(next@), nk, d + 1),
                nk.len() > 0 ==> 0 <= last_p < fi && nk.last() == fk[last_p].push(last_e),
                forall|j: int|
                    0 <= j < frontier.len() ==> (#[trigger] fv[j]).1.len() == d && (d == 0
                        ==> s.contains(fv[j].0)) && (d > 0 ==> is_path_to(g, s, fv[j].1, fv[j].0)),
                forall|x: Seq<char>|
                    (s.contains(x) || #[trigger] added.deep_view().contains(x)) <==> (near(g, s, x, d as int)
                        || exists|k: int| 0 <= k < next.len() && #[trigger] frontier_view(next@)[k].0 == x),
                forall|k: int|
                    0 <= k < next.len() ==> (#[trigger] frontier_view(next@)[k]).1.len() == d + 1
                        && is_path_to(g, s, frontier_view(next@)[k].1, frontier_view(next@)[k].0)
                        && !near(g, s, frontier_view(next@)[k].0, d as int),
                forall|j: int, x: Seq<char>, on: Seq<char>|
                    0 <= j < fi && #[trigger] step(g, fv[j].0, x, on) ==> (s.contains(x)
                        || added.deep_view().contains(x)),
                !added.deep_view().contains(t),
                added.deep_view().no_duplicates(),
                added.deep_view().len() == added0.len() + next.len(),
                forall|k: int|
                    0 <= k < added.len() ==> endpoints(g).contains(#[trigger] added.deep_view()[k])
                        && !s.contains(added.deep_view()[k]),
            decreases frontier.len() - fi,
        {
            let cur = &frontier[fi].0;
            let cur_path = &frontier[fi].1;
            assert(fv[fi as int].0 == cur@);
            assert(fv[fi as int].1 == path_view(cur_path@));
            let mut m: usize = 0;
            while m < graph.len()
                invariant
                    g == graph_view(graph@),
                    s == from_set.deep_view(),
                    t == target@,
                    fv == frontier_view(frontier@),
                    fi < frontier.len(),
                    *cur == frontier@[fi as int].0,
                    *cur_path == frontier@[fi as int].1,
                    m <= graph.len(),
                    fv[fi as int].1.len() == d,
                    keyed(g, s, fv, fk),
                    frontier_first(g, s, fv, fk, d as int),
                    keyed(g, s, frontier_view(next@), nk),
                    entries_first(g, s, frontier_view(next@), nk, d + 1),
                    nk.len() > 0 ==> 0 <= last_p <= fi && (last_p < fi || last_e < m)
                        && nk.last() == fk[last_p].push(last_e),
                    forall|j: int|
                        0 <= j < frontier.len() ==> (#[trigger] fv[j]).1.len() == d,
                    d == 0 ==> s.contains(cur@),
                    d > 0 ==> is_path_to(g, s, fv[fi as int].1, cur@),
                    forall|x: Seq<char>|
                        (s.contains(x) || #[trigger] added.deep_view().contains(x)) <==> (near(g, s, x, d as int)
                            || exists|k: int|
                            0 <= k < next.len() && #[trigger] frontier_view(next@)[k].0 == x),
                    forall|k: int|
                        0 <= k < next.len() ==> (#[trigger] frontier_view(next@)[k]).1.len() == d + 1
                            && is_path_to(g, s, frontier_view(next@)[k].1, frontier_view(next@)[k].0)
                            && !near(g, s, frontier_view(next@)[k].0, d as int),
                    forall|j: int, x: Seq<char>, on: Seq<char>|
                        0 <= j < fi && #[trigger] step(g, fv[j].0, x, on) ==> (s.contains(x)
                            || added.deep_view().contains(x)),
                    forall|e: int, x: Seq<char>|
                        0 <= e < m && #[trigger] edge_links(g[e], cur@, x, g[e].2) ==> (s.contains(x)
                            || added.deep_view().contains(x)),
                    !added.deep_view().contains(t),
                    added.deep_view().no_duplicates(),
                    added.deep_view().len() == added0.len() + next.len(),
                    forall|k: int|
                        0 <= k < added.len() ==> endpoints(g).contains(#[trigger] added.deep_view()[k])
                            && !s.contains(added.deep_view()[k]),
                decreases graph.len() - m,
            {
                let e = &graph[m];
                assert(g[m as int] == (e.a@, e.b@, e.on_cond@));
                let other: Option<&String> = if e.a == *cur {
                    Some(&e.b)
                } else if e.b == *cur {
                    Some(&e.a)
                } else {
                    None
                };
                match other {
                    None => {
                        assert forall|x: Seq<char>| #[trigger] edge_links(g[m as int], cur@, x, g[m as int].2) implies false by {}
                    },
                    Some(nx) => {
                        assert(edge_links(g[m as int], cur@, nx@, g[m as int].2));
                        assert forall|x: Seq<char>| #[trigger] edge_links(g[m as int], cur@, x, g[m as int].2) implies x == nx@ by {}
                        if contains_string(from_set, nx) || contains_string(&added, nx) {
                        } else {
                            // A newly reached table.
                            let ghost x = nx@;
                            let ghost on = e.on_cond@;
                            assert(step(g, cur@, x, on));
                            assert(!near(g, s, x, d as int));
                            let mut new_path = copy_path(cur_path);
                            new_path.push((nx.clone(), e.on_cond.clone()));
                            let ghost np = path_view(new_path@);
                            proof {
                                assert(np =~= fv[fi as int].1.push((x, on)));
                                if d == 0 {
                                    assert(fv[fi as int].1 =~= Seq::<(Seq<char>, Seq<char>)>::empty());
                                    let k = choose|k: int| 0 <= k < s.len() && s[k] == cur@;
                                    lemma_single(g, s, k, x, on);
                                    assert(np =~= seq![(x, on)]);
                                } else {
                                    lemma_extend(g, s, fv[fi as int].1, x, on);
                                }
                                lemma_endpoints(g, m as int);
                            }
                            let ghost before_added = added.deep_view();
                            proof {
                                lemma_found_first(g, s, fv, fk, d as int, fi as int, m as int, x, before_added);
                            }
                            added.push(nx.clone());
                            assert(added.deep_view() =~= before_added.push(x));
                            assert forall|y: Seq<char>| before_added.contains(y) implies #[trigger] added.deep_view().contains(y) by {
                                lemma_push_contains(before_added, x, y);
                            }
                            if *nx == *target {
                                proof {
                                    assert forall|q: Seq<(Seq<char>, Seq<char>)>|
                                        #[trigger] is_path_to(g, s, q, t) implies np.len() <= q.len() by {
                                        if q.len() <= d {
                                            assert(near(g, s, t, d as int));
                                        }
                                    }
                                    assert(walk_to(g, s, fk[fi as int].push(m as int), np, t));
                                }
                                return Some(new_path);
                            }
                            let ghost before_next = frontier_view(next@);
                            next.push((nx.clone(), new_path));
                            assert(frontier_view(next@) =~= before_next.push((x, np)));
                            proof {
                                lemma_next_push(g, s, fv, fk, before_next, nk, d as int, fi as int, m as int,
                                    last_p, last_e, x, np);
                                nk = nk.push(fk[fi as int].push(m as int));
                                last_p = fi as int;
                                last_e = m as int;
                                assert(frontier_view(next@)[before_next.len() as int].0 == x);
                                assert forall|y: Seq<char>|
                                    (s.contains(y) || #[trigger] added.deep_view().contains(y)) <==> (
                                    near(g, s, y, d as int) || exists|k: int|
                                        0 <= k < next.len() && #[trigger] frontier_view(next@)[k].0 == y) by {
                                    assert((s.contains(y) || before_added.contains(y)) <==> (near(g, s, y, d as int)
                                        || exists|k: int| 0 <= k < before_next.len() && #[trigger] before_next[k].0 == y));
                                    lemma_push_contains(before_added, x, y);
                                    if y == x {
                                    } else {
                                        if exists|k: int|
                                            0 <= k < next.len() && #[trigger] frontier_view(next@)[k].0 == y {
                                            let k = choose|k: int|
                                                0 <= k < next.len() && #[trigger] frontier_view(next@)[k].0 == y;
                                            assert(before_next[k].0 == y);
                                        }
                                        if exists|k: int|
                                            0 <= k < before_next.len() && #[trigger] before_next[k].0 == y {
                                            let k = choose|k: int|
                                                0 <= k < before_next.len() && #[trigger] before_next[k].0 == y;
                                            assert(frontier_view(next@)[k].0 == y);
                                        }
                                    }
                                }
                                assert(before_added.push(x).no_duplicates());
                            }
                        }
                    },
                }
                m = m + 1;
            }
            proof {
                assert forall|j: int, x: Seq<char>, on: Seq<char>|
                    0 <= j < fi + 1 && #[trigger] step(g, fv[j].0, x, on) implies (s.contains(x)
                    || added.deep_view().contains(x)) by {
                    if j == fi {
                        let e = choose|e: int| 0 <= e < g.len() && #[trigger] edge_links(g[e], fv[j].0, x, on);
                        assert(edge_links(g[e], cur@, x, g[e].2));
                    }
                }
            }
            fi = fi + 1;
        }
        // Every table exactly d + 1 steps away was reached from the frontier.
        proof {
            let nv = frontier_view(next@);
            assert forall|x: Seq<char>|
                #[trigger] near(g, s, x, d + 1) && !near(g, s, x, d as int) implies exists|m: int|
                0 <= m < next.len() && #[trigger] frontier_view(next@)[m].0 == x by {
                let p = choose|p: Seq<(Seq<char>, Seq<char>)>|
                    #[trigger] is_path_to(g, s, p, x) && p.len() <= d + 1;
                assert(p.len() == d + 1);
                let on = p.last().1;
                if d == 0 {
                    let k = choose|k: int| 0 <= k < s.len() && #[trigger] step(g, s[k], p[0].0, p[0].1);
                    assert(near(g, s, s[k], 0));
                    assert(!near(g, s, s[k], -1));
                    let j = choose|j: int| 0 <= j < frontier.len() && #[trigger] fv[j].0 == s[k];
                    assert(step(g, fv[j].0, x, on));
                } else {
                    let y = p[d - 1].0;
                    lemma_prefix(g, s, p, d as int);
                    assert(step(g, p[d - 1].0, p[d as int].0, p[d as int].1));
                    assert(near(g, s, y, d as int));
                    if near(g, s, y, d - 1) {
                        assert(!s.contains(p[d - 1].0));
                        let r = choose|r: Seq<(Seq<char>, Seq<char>)>|
                            #[trigger] is_path_to(g, s, r, y) && r.len() <= d - 1;
                        lemma_extend(g, s, r, x, on);
                        assert(near(g, s, x, d as int));
                    }
                    let j = choose|j: int| 0 <= j < frontier.len() && #[trigger] fv[j].0 == y;
                    assert(step(g, fv[j].0, x, on));
                }
            }
            assert forall|x: Seq<char>|
                #[trigger] near(g, s, x, d + 1) <==> (s.contains(x) || added.deep_view().contains(x)) by {
                if near(g, s, x, d as int) {
                    if !s.contains(x) {
                        let p = choose|p: Seq<(Seq<char>, Seq<char>)>|
                            #[trigger] is_path_to(g, s, p, x) && p.len() <= d;
                        assert(near(g, s, x, d + 1));
                    }
                }
                if exists|k: int| 0 <= k < next.len() && #[trigger] frontier_view(next@)[k].0 == x {
                    let k = choose|k: int| 0 <= k < next.len() && #[trigger] frontier_view(next@)[k].0 == x;
                    assert(is_path_to(g, s, nv[k].1, x));
                    assert(near(g, s, x, d + 1));
                }
            }
            lemma_added_bound(g, added.deep_view());
            lemma_next_level(g, s, nv, nk, d as int);
        }
        if next.len() == 0 {
            // No table is d + 1 steps away: no path reaches further.
            proof {
                assert forall|x: Seq<char>| #[trigger] near(g, s, x, d + 1) implies near(g, s, x, d as int) by {}
                assert forall|q: Seq<(Seq<char>, Seq<char>)>|
                    !#[trigger] is_path_to(g, s, q, t) by {
                    if is_path_to(g, s, q, t) {
                        lemma_exhausted(g, s, d + 1, t, q);
                        assert(near(g, s, t, d + 1));
                        assert(!s.contains(q.last().0));
                    }
                }
            }
            return None;
        }
        assert(added.deep_view().len() == added.len());
        frontier = next;
        proof {
            fk = nk;
        }
        d = d + 1;
    }
    proof {
        assert forall|x: Seq<char>| #[trigger] near(g, s, x, d as int) implies near(g, s, x, d - 1) by {
            if !near(g, s, x, d - 1) {
                let m = choose|m: int| 0 <= m < frontier.len() && #[trigger] frontier_view(frontier@)[m].0 == x;
            }
        }
        assert forall|q: Seq<(Seq<char>, Seq<char>)>|
            !#[trigger] is_path_to(g, s, q, t) by {
            if is_path_to(g, s, q, t) {
                lemma_exhausted(g, s, d as int, t, q);
                assert(near(g, s, t, d as int));
                assert(!s.contains(q.last().0));
            }
        }
    }
    None
}


// ── The graph of this schema ─────────────────────────────────────────────────

/// The tables that can be joined directly, and how.
pub open spec fn join_graph() -> Seq<(Seq<char>, Seq<char>, Seq<char>)> {
    seq![
        ("EXPENSE_REPORT"@, "EXPENSE_ENTRY"@, "EXPENSE_ENTRY.REPORT_ID = EXPENSE_REPORT.REPORT_ID"@),
        ("EXPENSE_ENTRY"@, "EXPENSE_ALLOCATION"@, "EXPENSE_ALLOCATION.REPORT_ID = EXPENSE_ENTRY.REPORT_ID\n    AND EXPENSE_ALLOCATION.ENTRY_ID = EXPENSE_ENTRY.ENTRY_ID"@),
        ("EXPENSE_ENTRY"@, "EXPENSE_ATTENDEE"@, "EXPENSE_ATTENDEE.REPORT_ID = EXPENSE_ENTRY.REPORT_ID\n    AND EXPENSE_ATTENDEE.ENTRY_ID = EXPENSE_ENTRY.ENTRY_ID"@),
        ("EXPENSE_REPORT"@, "PAYMENT_BATCH"@, "PAYMENT_BATCH.REPORT_ID = EXPENSE_REPORT.REPORT_ID"@),
        ("EXPENSE_REPORT"@, "EMPLOYEE"@, "EMPLOYEE.LOGIN_ID = EXPENSE_REPORT.LOGIN_ID"@),
        ("TRAVEL_REQUEST"@, "TRAVEL_REQUEST_SEGMENT"@, "TRAVEL_REQUEST_SEGMENT.REQUEST_ID = TRAVEL_REQUEST.REQUEST_ID"@),
        ("TRAVEL_REQUEST"@, "EMPLOYEE"@, "EMPLOYEE.LOGIN_ID = TRAVEL_REQUEST.LOGIN_ID"@),
        ("EXPENSE_ENTRY"@, "EXPENSE_ITEMIZATION"@, "EXPENSE_ITEMIZATION.REPORT_ID = EXPENSE_ENTRY.REPORT_ID\n    AND EXPENSE_ITEMIZATION.ENTRY_ID = EXPENSE_ENTRY.ENTRY_ID"@),
        ("EXPENSE_ENTRY"@, "CORPORATE_CARD_TRANSACTION"@, "CORPORATE_CARD_TRANSACTION.TRANSACTION_ID = EXPENSE_ENTRY.CARD_TRANSACTION_ID"@),
        ("EXPENSE_REPORT"@, "CASH_ADVANCE"@, "CASH_ADVANCE.REPORT_ID = EXPENSE_REPORT.REPORT_ID"@),
        ("TRIP"@, "EMPLOYEE"@, "EMPLOYEE.LOGIN_ID = TRIP.LOGIN_ID"@),
        ("TRIP"@, "TRAVEL_REQUEST"@, "TRIP.REQUEST_ID = TRAVEL_REQUEST.REQUEST_ID"@),
        ("TRIP"@, "EXPENSE_REPORT"@, "EXPENSE_REPORT.TRIP_ID = TRIP.TRIP_ID"@),
        ("TRIP"@, "TRIP_SEGMENT_AIR"@, "TRIP_SEGMENT_AIR.TRIP_ID = TRIP.TRIP_ID"@),
        ("TRIP"@, "TRIP_SEGMENT_HOTEL"@, "TRIP_SEGMENT_HOTEL.TRIP_ID = TRIP.TRIP_ID"@),
        ("TRIP"@, "TRIP_SEGMENT_CAR"@, "TRIP_SEGMENT_CAR.TRIP_ID = TRIP.TRIP_ID"@),
        ("INVOICE"@, "EMPLOYEE"@, "EMPLOYEE.LOGIN_ID = INVOICE.LOGIN_ID"@),
        ("INVOICE"@, "INVOICE_LINE"@, "INVOICE_LINE.INVOICE_ID = INVOICE.INVOICE_ID"@),
        ("INVOICE_LINE"@, "INVOICE_ALLOCATION"@, "INVOICE_ALLOCATION.INVOICE_ID = INVOICE_LINE.INVOICE_ID\n    AND INVOICE_ALLOCATION.LINE_ID = INVOICE_LINE.LINE_ID"@),
    ]
}

/// An edge of the join graph.
fn edge(a: &str, b: &str, on_cond: &str) -> (r: JoinEdge)
    ensures
        r.a@ == a@,
        r.b@ == b@,
        r.on_cond@ == on_cond@,
{
    JoinEdge { a: String::from_str(a), b: String::from_str(b), on_cond: String::from_str(on_cond) }
}

/// The tables that can be joined directly, and how.
pub fn join_edges() -> (g: Vec<JoinEdge>)
    ensures
        graph_view(g@) == join_graph(),
{
    let mut g: Vec<JoinEdge> = Vec::new();
    g.push(edge("EXPENSE_REPORT", "EXPENSE_ENTRY", "EXPENSE_ENTRY.REPORT_ID = EXPENSE_REPORT.REPORT_ID"));
    g.push(edge("EXPENSE_ENTRY", "EXPENSE_ALLOCATION", "EXPENSE_ALLOCATION.REPORT_ID = EXPENSE_ENTRY.REPORT_ID\n    AND EXPENSE_ALLOCATION.ENTRY_ID = EXPENSE_ENTRY.ENTRY_ID"));
    g.push(edge("EXPENSE_ENTRY", "EXPENSE_ATTENDEE", "EXPENSE_ATTENDEE.REPORT_ID = EXPENSE_ENTRY.REPORT_ID\n    AND EXPENSE_ATTENDEE.ENTRY_ID = EXPENSE_ENTRY.ENTRY_ID"));
    g.push(edge("EXPENSE_REPORT", "PAYMENT_BATCH", "PAYMENT_BATCH.REPORT_ID = EXPENSE_REPORT.REPORT_ID"));
    g.push(edge("EXPENSE_REPORT", "EMPLOYEE", "EMPLOYEE.LOGIN_ID = EXPENSE_REPORT.LOGIN_ID"));
    g.push(edge("TRAVEL_REQUEST", "TRAVEL_REQUEST_SEGMENT", "TRAVEL_REQUEST_SEGMENT.REQUEST_ID = TRAVEL_REQUEST.REQUEST_ID"));
    g.push(edge("TRAVEL_REQUEST", "EMPLOYEE", "EMPLOYEE.LOGIN_ID = TRAVEL_REQUEST.LOGIN_ID"));
    g.push(edge("EXPENSE_ENTRY", "EXPENSE_ITEMIZATION", "EXPENSE_ITEMIZATION.REPORT_ID = EXPENSE_ENTRY.REPORT_ID\n    AND EXPENSE_ITEMIZATION.ENTRY_ID = EXPENSE_ENTRY.ENTRY_ID"));
    g.push(edge("EXPENSE_ENTRY", "CORPORATE_CARD_TRANSACTION", "CORPORATE_CARD_TRANSACTION.TRANSACTION_ID = EXPENSE_ENTRY.CARD_TRANSACTION_ID"));
    g.push(edge("EXPENSE_REPORT", "CASH_ADVANCE", "CASH_ADVANCE.REPORT_ID = EXPENSE_REPORT.REPORT_ID"));
    g.push(edge("TRIP", "EMPLOYEE", "EMPLOYEE.LOGIN_ID = TRIP.LOGIN_ID"));
    g.push(edge("TRIP", "TRAVEL_REQUEST", "TRIP.REQUEST_ID = TRAVEL_REQUEST.REQUEST_ID"));
    g.push(edge("TRIP", "EXPENSE_REPORT", "EXPENSE_REPORT.TRIP_ID = TRIP.TRIP_ID"));
    g.push(edge("TRIP", "TRIP_SEGMENT_AIR", "TRIP_SEGMENT_AIR.TRIP_ID = TRIP.TRIP_ID"));
    g.push(edge("TRIP", "TRIP_SEGMENT_HOTEL", "TRIP_SEGMENT_HOTEL.TRIP_ID = TRIP.TRIP_ID"));
    g.push(edge("TRIP", "TRIP_SEGMENT_CAR", "TRIP_SEGMENT_CAR.TRIP_ID = TRIP.TRIP_ID"));
    g.push(edge("INVOICE", "EMPLOYEE", "EMPLOYEE.LOGIN_ID = INVOICE.LOGIN_ID"));
    g.push(edge("INVOICE", "INVOICE_LINE", "INVOICE_LINE.INVOICE_ID = INVOICE.INVOICE_ID"));
    g.push(edge("INVOICE_LINE", "INVOICE_ALLOCATION", "INVOICE_ALLOCATION.INVOICE_ID = INVOICE_LINE.INVOICE_ID\n    AND INVOICE_ALLOCATION.LINE_ID = INVOICE_LINE.LINE_ID"));
    assert(graph_view(g@) =~= join_graph());
    g
}


// ── Join plans ───────────────────────────────────────────────────────────────

/// `y` is `x`, or a join path leads from `x` to `y`.
pub open spec fn connected(g: Seq<(Seq<char>, Seq<char>, Seq<char>)>, x: Seq<char>, y: Seq<char>) -> bool {
    x == y || exists|q: Seq<(Seq<char>, Seq<char>)>| #[trigger] is_path_to(g, seq![x], q, y)
}

/// The tables of a join plan, in order.
pub open spec fn plan_tables(joins: Seq<(Seq<char>, Seq<char>)>) -> Seq<Seq<char>> {
    joins.map_values(|j: (Seq<char>, Seq<char>)| j.0)
}

/// The tables of `ts` that are not in `sel`, in order.
pub open spec fn outside(ts: Seq<Seq<char>>, sel: Seq<Seq<char>>) -> Seq<Seq<char>>
    decreases ts.len(),
{
    if ts.len() == 0 {
        Seq::empty()
    } else if sel.contains(ts.last()) {
        outside(ts.drop_last(), sel)
    } else {
        outside(ts.drop_last(), sel).push(ts.last())
    }
}

/// `joins` and `auto` are a join plan for the chosen tables `sel`: it starts
/// from the first chosen table, holds no table twice, joins each further
/// table to an earlier one along an edge with that edge's ON condition,
/// lists as added automatically exactly its tables that were not chosen,
/// holds every chosen table that is connected to the first, and grew from
/// the first table one shortest path at a time, each to the first (in the
/// order chosen) of the nearest chosen tables still outside it, along the
/// shortest path whose walk comes first.
pub open spec fn is_join_plan(
    g: Seq<(Seq<char>, Seq<char>, Seq<char>)>,
    sel: Seq<Seq<char>>,
    joins: Seq<(Seq<char>, Seq<char>)>,
    auto: Seq<Seq<char>>,
) -> bool {
    let ts = plan_tables(joins);
    if sel.len() == 0 {
        joins.len() == 0 && auto.len() == 0
    } else {
        &&& joins.len() >= 1
        &&& joins[0] == (sel[0], Seq::<char>::empty())
        &&& ts.no_duplicates()
        &&& joined_to_earlier(g, ts, joins)
        &&& auto == outside(ts.skip(1), sel)
        &&& forall|k: int| 0 <= k < sel.len() && #[trigger] connected(g, sel[0], sel[k]) ==> ts.contains(sel[k])
        &&& grown_nearest_first(g, sel, joins)
    }
}

/// No chosen table at a position from 1 to before `kt` is `d` or fewer
/// steps away from `before`.
pub open spec fn none_nearer_before(
    g: Seq<(Seq<char>, Seq<char>, Seq<char>)>,
    sel: Seq<Seq<char>>,
    before: Seq<Seq<char>>,
    kt: int,
    d: int,
) -> bool {
    forall|k: int, q: Seq<(Seq<char>, Seq<char>)>|
        1 <= k < kt && #[trigger] is_path_to(g, before, q, sel[k]) ==> d < q.len()
}

/// How many chosen tables are not in `inc`.
pub open spec fn left_out(sel: Seq<Seq<char>>, inc: Seq<Seq<char>>) -> nat
    decreases sel.len(),
{
    if sel.len() == 0 {
        0
    } else {
        left_out(sel.drop_last(), inc) + if inc.contains(sel.last()) {
            0nat
        } else {
            1nat
        }
    }
}

/// Including more tables leaves no more chosen tables out, and fewer when a
/// chosen table that was out is now in.
proof fn lemma_left_out_shrinks(sel: Seq<Seq<char>>, inc: Seq<Seq<char>>, inc2: Seq<Seq<char>>, k: int)
    requires
        forall|y: Seq<char>| inc.contains(y) ==> #[trigger] inc2.contains(y),
        0 <= k < sel.len(),
        !inc.contains(sel[k]),
        inc2.contains(sel[k]),
    ensures
        left_out(sel, inc2) < left_out(sel, inc),
    decreases sel.len(),
{
    if k < sel.len() - 1 {
        assert(sel.drop_last()[k] == sel[k]);
        lemma_left_out_shrinks(sel.drop_last(), inc, inc2, k);
    } else {
        lemma_left_out_grows_no_more(sel.drop_last(), inc, inc2);
    }
    if inc.contains(sel.last()) {
        assert(inc2.contains(sel.last()));
    }
}

/// Including more tables leaves no more chosen tables out.
proof fn lemma_left_out_grows_no_more(sel: Seq<Seq<char>>, inc: Seq<Seq<char>>, inc2: Seq<Seq<char>>)
    requires
        forall|y: Seq<char>| inc.contains(y) ==> #[trigger] inc2.contains(y),
    ensures
        left_out(sel, inc2) <= left_out(sel, inc),
    decreases sel.len(),
{
    if sel.len() > 0 {
        lemma_left_out_grows_no_more(sel.drop_last(), inc, inc2);
        if inc.contains(sel.last()) {
            assert(inc2.contains(sel.last()));
        }
    }
}

/// Steps `a` to `b` of the plan are a join path from the tables before them
/// to a chosen table, no chosen table is fewer steps away from those tables,
/// and none chosen before it is as near: the segment is a shortest path to
/// the first of the nearest chosen tables, and among those the one whose
/// walk (over the tables before it in plan order, then the edges) comes first.
pub open spec fn nearest_segment(
    g: Seq<(Seq<char>, Seq<char>, Seq<char>)>,
    sel: Seq<Seq<char>>,
    joins: Seq<(Seq<char>, Seq<char>)>,
    a: int,
    b: int,
) -> bool {
    let before = plan_tables(joins).take(a);
    &&& 1 <= a < b <= joins.len()
    &&& exists|kt: int|
        1 <= kt < sel.len() && sel[kt] == joins[b - 1].0 && #[trigger] none_nearer_before(
            g,
            sel,
            before,
            kt,
            b - a,
        )
    &&& is_path_to(g, before, joins.subrange(a, b), joins[b - 1].0)
    &&& walks_first(g, before, joins.subrange(a, b), joins[b - 1].0)
    &&& forall|k: int, q: Seq<(Seq<char>, Seq<char>)>|
        0 <= k < sel.len() && #[trigger] is_path_to(g, before, q, sel[k]) ==> b - a <= q.len()
}

/// The plan is its first table followed by nearest segments that end at
/// the positions `cuts`.
pub open spec fn cut_into_segments(
    g: Seq<(Seq<char>, Seq<char>, Seq<char>)>,
    sel: Seq<Seq<char>>,
    joins: Seq<(Seq<char>, Seq<char>)>,
    cuts: Seq<int>,
) -> bool {
    &&& cuts.len() >= 1
    &&& cuts[0] == 1
    &&& cuts.last() == joins.len()
    &&& forall|c: int|
        1 <= c < cuts.len() ==> #[trigger] nearest_segment(g, sel, joins, cuts[c - 1], cuts[c])
}

/// The plan grew from its first table one nearest segment at a time.
pub open spec fn grown_nearest_first(
    g: Seq<(Seq<char>, Seq<char>, Seq<char>)>,
    sel: Seq<Seq<char>>,
    joins: Seq<(Seq<char>, Seq<char>)>,
) -> bool {
    exists|cuts: Seq<int>| #[trigger] cut_into_segments(g, sel, joins, cuts)
}

/// Steps added after a plan leave its segments as they were.
proof fn lemma_segment_extend(
    g: Seq<(Seq<char>, Seq<char>, Seq<char>)>,
    sel: Seq<Seq<char>>,
    joins: Seq<(Seq<char>, Seq<char>)>,
    more: Seq<(Seq<char>, Seq<char>)>,
    a: int,
    b: int,
)
    requires
        nearest_segment(g, sel, joins, a, b),
    ensures
        nearest_segment(g, sel, joins + more, a, b),
{
    let j2 = joins + more;
    assert(plan_tables(j2).take(a) =~= plan_tables(joins).take(a));
    assert(j2.subrange(a, b) =~= joins.subrange(a, b));
    assert(j2[b - 1] == joins[b - 1]);
}

/// A shortest path passes no table twice.
proof fn lemma_shortest_distinct(
    g: Seq<(Seq<char>, Seq<char>, Seq<char>)>,
    s: Seq<Seq<char>>,
    p: Seq<(Seq<char>, Seq<char>)>,
    t: Seq<char>,
)
    requires
        is_path_to(g, s, p, t),
        forall|q: Seq<(Seq<char>, Seq<char>)>| #[trigger] is_path_to(g, s, q, t) ==> p.len() <= q.len(),
    ensures
        forall|i: int, j: int| 0 <= i < j < p.len() ==> p[i].0 != p[j].0,
{
    assert forall|i: int, j: int| 0 <= i < j < p.len() implies p[i].0 != p[j].0 by {
        if p[i].0 == p[j].0 {
            lemma_prefix(g, s, p, i + 1);
            let r = p.take(i + 1);
            assert(r[i].0 == p[i].0);
            if j + 1 < p.len() {
                lemma_splice(g, s, p, j + 1, r);
                assert(is_path_to(g, s, r + p.skip(j + 1), t));
            } else {
                assert(is_path_to(g, s, r, t));
            }
        }
    }
}

/// Leaving the tables `t` along a path from one of them: a path out of `t`
/// reaches the same table when that table is not in `t`.
proof fn lemma_escape(
    g: Seq<(Seq<char>, Seq<char>, Seq<char>)>,
    t: Seq<Seq<char>>,
    x0: Seq<char>,
    q: Seq<(Seq<char>, Seq<char>)>,
)
    requires
        t.contains(x0),
        q.len() >= 1,
        step(g, x0, q[0].0, q[0].1),
        forall|i: int| 1 <= i < q.len() ==> #[trigger] step(g, q[i - 1].0, q[i].0, q[i].1),
        !t.contains(q.last().0),
    ensures
        exists|p: Seq<(Seq<char>, Seq<char>)>| #[trigger] is_path_to(g, t, p, q.last().0),
    decreases q.len(),
{
    if exists|i: int| 0 <= i < q.len() && t.contains(#[trigger] q[i].0) {
        let i = choose|i: int| 0 <= i < q.len() && t.contains(#[trigger] q[i].0);
        assert(i < q.len() - 1);
        let r = q.skip(i + 1);
        let i1 = i + 1;
        assert(step(g, q[i1 - 1].0, q[i1].0, q[i1].1));
        assert forall|m: int| 1 <= m < r.len() implies #[trigger] step(g, r[m - 1].0, r[m].0, r[m].1) by {
            let n = i + 1 + m;
            assert(step(g, q[n - 1].0, q[n].0, q[n].1));
            assert(r[m - 1] == q[n - 1]);
            assert(r[m] == q[n]);
        }
        lemma_escape(g, t, q[i].0, r);
        assert(r.last() == q.last());
    } else {
        let k = choose|k: int| 0 <= k < t.len() && t[k] == x0;
        assert(step(g, t[k], q[0].0, q[0].1));
        assert(is_path_to(g, t, q, q.last().0));
    }
}

/// A path out of one table is a chain of steps from it.
proof fn lemma_walk_of_path(
    g: Seq<(Seq<char>, Seq<char>, Seq<char>)>,
    x0: Seq<char>,
    q: Seq<(Seq<char>, Seq<char>)>,
    y: Seq<char>,
)
    requires
        is_path_to(g, seq![x0], q, y),
    ensures
        step(g, x0, q[0].0, q[0].1),
{
    let k = choose|k: int| 0 <= k < seq![x0].len() && #[trigger] step(g, seq![x0][k], q[0].0, q[0].1);
    assert(seq![x0][k] == x0);
}

/// What holds of a join plan while it is being built: it starts from the first
/// chosen table, holds no table twice, joins each further table to an earlier
/// one, and lists its tables that were not chosen.
#[verifier::opaque]
pub open spec fn plan_so_far(
    g: Seq<(Seq<char>, Seq<char>, Seq<char>)>,
    sel: Seq<Seq<char>>,
    inc: Seq<Seq<char>>,
    jv: Seq<(Seq<char>, Seq<char>)>,
    auto: Seq<Seq<char>>,
) -> bool {
    &&& sel.len() > 0
    &&& inc == plan_tables(jv)
    &&& jv.len() >= 1
    &&& jv[0] == (sel[0], Seq::<char>::empty())
    &&& inc.no_duplicates()
    &&& joined_to_earlier(g, inc, jv)
    &&& auto == outside(inc.skip(1), sel)
}

/// Each table after the first is one step, with its ON condition, from an
/// earlier table.
pub open spec fn joined_to_earlier(
    g: Seq<(Seq<char>, Seq<char>, Seq<char>)>,
    ts: Seq<Seq<char>>,
    joins: Seq<(Seq<char>, Seq<char>)>,
) -> bool {
    forall|i: int|
        1 <= i && i < joins.len() ==> #[trigger] step_from_some(g, ts.take(i), ts[i], joins[i].1)
}

/// Some table of `ts` is one step from `x` with condition `on`.
pub open spec fn step_from_some(
    g: Seq<(Seq<char>, Seq<char>, Seq<char>)>,
    ts: Seq<Seq<char>>,
    x: Seq<char>,
    on: Seq<char>,
) -> bool {
    exists|k: int| 0 <= k < ts.len() && #[trigger] step(g, ts[k], x, on)
}

/// Adding a table one step from the plan keeps it a plan.
proof fn lemma_plan_push(
    g: Seq<(Seq<char>, Seq<char>, Seq<char>)>,
    sel: Seq<Seq<char>>,
    inc: Seq<Seq<char>>,
    jv: Seq<(Seq<char>, Seq<char>)>,
    auto: Seq<Seq<char>>,
    prev: Seq<char>,
    table: Seq<char>,
    on: Seq<char>,
)
    requires
        plan_so_far(g, sel, inc, jv, auto),
        inc.contains(prev),
        step(g, prev, table, on),
        !inc.contains(table),
    ensures
        plan_so_far(
            g,
            sel,
            inc.push(table),
            jv.push((table, on)),
            if sel.contains(table) {
                auto
            } else {
                auto.push(table)
            },
        ),
{
    reveal(plan_so_far);
    let inc2 = inc.push(table);
    let jv2 = jv.push((table, on));
    assert(inc2 =~= plan_tables(jv2));
    let jp = choose|jp: int| 0 <= jp < inc.len() && inc[jp] == prev;
    assert(step(g, inc2[jp], inc2[inc.len() as int], jv2[inc.len() as int].1));
    assert forall|i: int| 1 <= i && i < jv2.len() implies #[trigger] step_from_some(g, inc2.take(i), inc2[i], jv2[i].1) by {
        if i < jv.len() {
            assert(inc2.take(i) =~= inc.take(i));
            assert(step_from_some(g, inc.take(i), inc[i], jv[i].1));
        } else {
            assert(i == inc.len());
            assert(inc2.take(i) =~= inc);
            assert(step(g, inc2.take(i)[jp], inc2[i], jv2[i].1));
        }
    }
    assert(joined_to_earlier(g, inc2, jv2));
    assert forall|x: int, y: int| 0 <= x < inc2.len() && 0 <= y < inc2.len() && x != y implies inc2[x] != inc2[y] by {
        if x < inc.len() && y < inc.len() {
        } else if x < inc.len() {
            assert(inc.contains(inc[x]));
        } else if y < inc.len() {
            assert(inc.contains(inc[y]));
        }
    }
    assert(inc2.skip(1) =~= inc.skip(1).push(table));
    assert(inc2.skip(1).drop_last() =~= inc.skip(1));
    assert(inc2.skip(1).last() == table);
    assert(outside(inc2.skip(1), sel) == if sel.contains(table) {
        auto
    } else {
        auto.push(table)
    });
    assert(jv2[0] == jv[0]);
    assert(inc2.no_duplicates());
    assert(jv2.len() >= 1);
    assert(jv2[0] == (sel[0], Seq::<char>::empty()));
    let au2 = if sel.contains(table) {
        auto
    } else {
        auto.push(table)
    };
    assert(au2 == outside(inc2.skip(1), sel));

}

/// The ordered join plan for the chosen tables over `graph`: the first chosen
/// table is the base; then, as long as a chosen table outside the plan can
/// be reached, the first of the nearest such tables (in the order they were
/// chosen) joins along a shortest join path from the tables already in the
/// plan, whose tables join the plan on the way. Returns the plan (table and
/// ON condition; empty for the base) and the tables that were added only as
/// bridges.
pub fn plan_joins_in(graph: &Vec<JoinEdge>, selected: &Vec<String>) -> (r: (
    Vec<(String, String)>,
    Vec<String>,
))
    ensures
        is_join_plan(graph_view(graph@), selected.deep_view(), path_view(r.0@), r.1.deep_view()),
{
    let ghost g = graph_view(graph@);
    let ghost sel = selected.deep_view();
    if selected.len() == 0 {
        let a: Vec<(String, String)> = Vec::new();
        let b: Vec<String> = Vec::new();
        assert(path_view(a@).len() == 0);
        assert(b.deep_view().len() == 0);
        return (a, b);
    }
    let mut joins: Vec<(String, String)> = Vec::new();
    joins.push((selected[0].clone(), String::new()));
    let mut auto_added: Vec<String> = Vec::new();
    let mut included: Vec<String> = Vec::new();
    included.push(selected[0].clone());
    let ghost mut cuts: Seq<int> = seq![1int];
    proof {
        reveal(plan_so_far);
        assert(cut_into_segments(g, sel, path_view(joins@), cuts));
        assert(path_view(joins@) =~= seq![(sel[0], Seq::<char>::empty())]);
        assert(included.deep_view() =~= seq![sel[0]]);
        assert(plan_tables(path_view(joins@)) =~= seq![sel[0]]);
        assert(plan_tables(path_view(joins@)).skip(1) =~= Seq::<Seq<char>>::empty());
        assert(auto_added.deep_view() =~= Seq::<Seq<char>>::empty());
        assert(included.deep_view()[0] == sel[0]);
    }
    loop
        invariant
            g == graph_view(graph@),
            sel == selected.deep_view(),
            sel.len() > 0,
            plan_so_far(g, sel, included.deep_view(), path_view(joins@), auto_added.deep_view()),
            included.deep_view().contains(sel[0]),
            cut_into_segments(g, sel, path_view(joins@), cuts),
        ensures
            plan_so_far(g, sel, included.deep_view(), path_view(joins@), auto_added.deep_view()),
            cut_into_segments(g, sel, path_view(joins@), cuts),
            forall|k: int|
                0 <= k < sel.len() && #[trigger] connected(g, sel[0], sel[k]) ==> included.deep_view().contains(sel[k]),
        decreases left_out(sel, included.deep_view()),
    {
        let ghost tset = included.deep_view();
        // The first of the nearest chosen tables outside the plan.
        let mut best: Option<(usize, Vec<(String, String)>)> = None;
        let mut k: usize = 1;
        while k < selected.len()
            invariant
                g == graph_view(graph@),
                sel == selected.deep_view(),
                tset == included.deep_view(),
                1 <= k <= selected.len(),
                match best {
                    None => forall|j: int, q: Seq<(Seq<char>, Seq<char>)>|
                        1 <= j < k ==> !#[trigger] is_path_to(g, tset, q, sel[j]),
                    Some((kb, p)) => 1 <= kb < k && is_path_to(g, tset, path_view(p@), sel[kb as int])
                        && walks_first(g, tset, path_view(p@), sel[kb as int])
                        && (forall|j: int, q: Seq<(Seq<char>, Seq<char>)>|
                        1 <= j < k && #[trigger] is_path_to(g, tset, q, sel[j]) ==> path_view(p@).len() <= q.len())
                        && none_nearer_before(g, sel, tset, kb as int, path_view(p@).len() as int),
                },
            decreases selected.len() - k,
        {
            assert(sel[k as int] == selected[k as int]@);
            if !contains_string(&included, &selected[k]) {
                match bfs_path(graph, &included, &selected[k]) {
                    Some(path) => {
                        let better = match &best {
                            None => true,
                            Some((_, p)) => path.len() < p.len(),
                        };
                        if better {
                            best = Some((k, path));
                        }
                    },
                    None => {},
                }
            } else {
                proof {
                    assert forall|q: Seq<(Seq<char>, Seq<char>)>|
                        !#[trigger] is_path_to(g, tset, q, sel[k as int]) by {
                        if is_path_to(g, tset, q, sel[k as int]) {
                            assert(!tset.contains(q[q.len() - 1].0));
                        }
                    }
                }
            }
            k = k + 1;
        }
        let (kb, path) = match best {
            None => {
                proof {
                    assert forall|j: int| 0 <= j < sel.len() && #[trigger] connected(g, sel[0], sel[j]) implies tset.contains(sel[j]) by {
                        if !tset.contains(sel[j]) {
                            assert(j != 0);
                            if sel[0] != sel[j] {
                                let q = choose|q: Seq<(Seq<char>, Seq<char>)>| #[trigger] is_path_to(g, seq![sel[0]], q, sel[j]);
                                lemma_walk_of_path(g, sel[0], q, sel[j]);
                                lemma_escape(g, tset, sel[0], q);
                                let p = choose|p: Seq<(Seq<char>, Seq<char>)>| #[trigger] is_path_to(g, tset, p, q.last().0);
                                assert(is_path_to(g, tset, p, sel[j]));
                            }
                        }
                    }
                }
                break;
            },
            Some(bp) => bp,
        };
        let ghost pv = path_view(path@);
        let ghost jv0 = path_view(joins@);
        let ghost target = sel[kb as int];
        proof {
            reveal(plan_so_far);
            assert(plan_tables(jv0) == tset);
            lemma_shortest_distinct(g, tset, pv, target);
            assert(!tset.contains(pv[pv.len() - 1].0));
        }
        let mut m: usize = 0;
        while m < path.len()
            invariant
                g == graph_view(graph@),
                sel == selected.deep_view(),
                pv == path_view(path@),
                m <= path.len(),
                is_path_to(g, tset, pv, target),
                forall|i: int, j: int| 0 <= i < j < pv.len() ==> pv[i].0 != pv[j].0,
                plan_tables(jv0) == tset,
                path_view(joins@) == jv0 + pv.take(m as int),
                forall|y: Seq<char>| tset.contains(y) ==> #[trigger] included.deep_view().contains(y),
                forall|i: int| 0 <= i < m ==> included.deep_view().contains(#[trigger] pv[i].0),
                plan_so_far(g, sel, included.deep_view(), path_view(joins@), auto_added.deep_view()),
            decreases path.len() - m,
        {
            let table = &path[m].0;
            let on = &path[m].1;
            assert(pv[m as int] == (table@, on@));
            proof {
                reveal(plan_so_far);
                let inc = included.deep_view();
                assert(inc == plan_tables(jv0 + pv.take(m as int)));
                if inc.contains(table@) {
                    let x = choose|x: int| 0 <= x < inc.len() && inc[x] == table@;
                    if x < tset.len() {
                        assert(inc[x] == tset[x]);
                        assert(tset.contains(pv[m as int].0));
                    } else {
                        let i = x - tset.len();
                        assert(inc[x] == pv[i].0);
                        assert(pv[i].0 != pv[m as int].0);
                    }
                }
                assert(!inc.contains(table@));
            }
            let is_auto = !contains_string(selected, table);
            let ghost inc0 = included.deep_view();
            let ghost jv1 = path_view(joins@);
            let ghost a0 = auto_added.deep_view();
            // The new table is one step from a table already in the plan.
            let ghost prev: Seq<char> = if m == 0 {
                let x = choose|x: int| 0 <= x < tset.len() && #[trigger] step(g, tset[x], pv[0].0, pv[0].1);
                tset[x]
            } else {
                pv[m - 1].0
            };
            proof {
                if m == 0 {
                    let x = choose|x: int| 0 <= x < tset.len() && #[trigger] step(g, tset[x], pv[0].0, pv[0].1);
                    assert(tset.contains(tset[x]));
                } else {
                    let mm = m as int;
                    assert(step(g, pv[mm - 1].0, pv[mm].0, pv[mm].1));
                }
                assert(step(g, prev, table@, on@));
                assert(inc0.contains(prev));
                lemma_plan_push(g, sel, inc0, jv1, a0, prev, table@, on@);
            }
            included.push(table.clone());
            joins.push((table.clone(), on.clone()));
            if is_auto {
                auto_added.push(table.clone());
            }
            proof {
                assert(included.deep_view() =~= inc0.push(table@));
                assert(path_view(joins@) =~= jv1.push((table@, on@)));
                assert(path_view(joins@) =~= jv0 + pv.take(m + 1));
                if is_auto {
                    assert(auto_added.deep_view() =~= a0.push(table@));
                }
                assert forall|y: Seq<char>| tset.contains(y) implies #[trigger] included.deep_view().contains(y) by {
                    lemma_push_contains(inc0, table@, y);
                }
                assert forall|i: int| 0 <= i < m + 1 implies included.deep_view().contains(#[trigger] pv[i].0) by {
                    lemma_push_contains(inc0, table@, pv[i].0);
                }
            }
            m = m + 1;
        }
        // The path ends at the target, so the target is in the plan now.
        proof {
            assert(included.deep_view().contains(pv[pv.len() - 1].0));
            assert(included.deep_view().contains(target));
            assert(!tset.contains(target));
            lemma_left_out_shrinks(sel, tset, included.deep_view(), kb as int);
            assert(pv.take(pv.len() as int) =~= pv);
            let jv2 = path_view(joins@);
            assert(jv2 == jv0 + pv);
            assert forall|c: int| 1 <= c < cuts.len() implies #[trigger] nearest_segment(g, sel, jv2, cuts[c - 1], cuts[c]) by {
                lemma_segment_extend(g, sel, jv0, pv, cuts[c - 1], cuts[c]);
            }
            let a = jv0.len() as int;
            let b = jv2.len() as int;
            assert(plan_tables(jv2).take(a) =~= tset);
            assert(jv2.subrange(a, b) =~= pv);
            assert(jv2[b - 1] == pv[pv.len() - 1]);
            assert(none_nearer_before(g, sel, plan_tables(jv2).take(a), kb as int, b - a));
            assert(nearest_segment(g, sel, jv2, a, b));
            let cuts2 = cuts.push(b);
            assert forall|c: int| 1 <= c < cuts2.len() implies #[trigger] nearest_segment(g, sel, jv2, cuts2[c - 1], cuts2[c]) by {
                if c < cuts.len() {
                    assert(cuts2[c - 1] == cuts[c - 1] && cuts2[c] == cuts[c]);
                }
            }
            cuts = cuts2;
            assert(cut_into_segments(g, sel, path_view(joins@), cuts));
            assert forall|y: Seq<char>| #[trigger] tset.contains(y) implies included.deep_view().contains(y) by {}
            assert(included.deep_view().contains(sel[0]));
        }
    }
    proof {
        reveal(plan_so_far);
        let jv = path_view(joins@);
        let ts = plan_tables(jv);
        assert(cut_into_segments(g, sel, jv, cuts));
        assert(ts == included.deep_view());
        assert(jv.len() >= 1);
        assert(joined_to_earlier(g, ts, jv));
        assert(auto_added.deep_view() == outside(ts.skip(1), sel));
    }
    (joins, auto_added)
}

/// The join plan for the chosen tables over this schema's join graph.
pub fn plan_joins(selected: &Vec<String>) -> (r: (Vec<(String, String)>, Vec<String>))
    ensures
        is_join_plan(join_graph(), selected.deep_view(), path_view(r.0@), r.1.deep_view()),
{
    let g = join_edges();
    plan_joins_in(&g, selected)
}

} // verus!
