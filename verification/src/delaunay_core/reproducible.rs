//! The cells do not depend on the identity tokens.
//!
//! Identity tokens are drawn at random, so that two runs on the same points
//! work with other tokens. The construction reads the tokens only to tell
//! vertices apart. This module shows that two runs on vertices with the
//! same coordinates, whatever their tokens and data, go the same way step
//! by step and end with cells at the same places.

use super::cell::coordinates;
use super::facet::{facets, lies_on};
use super::insertion::{
    boundary, cone, grown, inserted, is_bad, is_clear, is_kept, is_open, open_facets, shared,
    testable, touches, triangulated,
};
use super::sphere::sphere_test;
use super::vertex::{has_token, uuids_of, Vertex};
use vstd::prelude::*;

verus! {

/// Two pools of vertices that match place by place: the tokens differ
/// within each pool, and the vertices at the same place have the same
/// coordinates.
pub open spec fn twin_pools<U, const D: usize>(p: Seq<Vertex<U, D>>, q: Seq<Vertex<U, D>>) -> bool {
    &&& p.len() == q.len()
    &&& uuids_of(p).no_duplicates()
    &&& uuids_of(q).no_duplicates()
    &&& forall|i: int| 0 <= i < p.len() ==> (#[trigger] p[i]).point@ == q[i].point@
}

/// `a` and `b` stand at the same place of the pools `p` and `q`.
pub open spec fn paired<U, const D: usize>(
    a: Vertex<U, D>,
    b: Vertex<U, D>,
    p: Seq<Vertex<U, D>>,
    q: Seq<Vertex<U, D>>,
) -> bool {
    exists|i: int| 0 <= i < p.len() && (#[trigger] p[i]) == a && q[i] == b
}

/// The simplices `s` and `t` match vertex by vertex.
pub open spec fn twin<U, const D: usize>(
    s: Seq<Vertex<U, D>>,
    t: Seq<Vertex<U, D>>,
    p: Seq<Vertex<U, D>>,
    q: Seq<Vertex<U, D>>,
) -> bool {
    &&& s.len() == t.len()
    &&& forall|k: int| 0 <= k < s.len() ==> paired(#[trigger] s[k], t[k], p, q)
}

/// The working sets `x` and `y` match simplex by simplex.
pub open spec fn twins<U, const D: usize>(
    x: Seq<Seq<Vertex<U, D>>>,
    y: Seq<Seq<Vertex<U, D>>>,
    p: Seq<Vertex<U, D>>,
    q: Seq<Vertex<U, D>>,
) -> bool {
    &&& x.len() == y.len()
    &&& forall|c: int| 0 <= c < x.len() ==> twin(#[trigger] x[c], y[c], p, q)
}

/// The coordinates of each simplex, in order.
pub open spec fn places<U, const D: usize>(cells: Seq<Seq<Vertex<U, D>>>) -> Seq<Seq<Seq<int>>> {
    Seq::new(cells.len(), |c: int| coordinates(cells[c]))
}

/// Paired vertices have the same coordinates, and two pairs have the same
/// token on one side exactly where they have on the other.
pub proof fn lemma_paired<U, const D: usize>(
    a: Vertex<U, D>,
    b: Vertex<U, D>,
    c: Vertex<U, D>,
    d: Vertex<U, D>,
    p: Seq<Vertex<U, D>>,
    q: Seq<Vertex<U, D>>,
)
    requires
        twin_pools(p, q),
        paired(a, b, p, q),
        paired(c, d, p, q),
    ensures
        a.point@ == b.point@,
        (a.uuid == c.uuid) == (b.uuid == d.uuid),
{
    let i = choose|i: int| 0 <= i < p.len() && (#[trigger] p[i]) == a && q[i] == b;
    let j = choose|j: int| 0 <= j < p.len() && (#[trigger] p[j]) == c && q[j] == d;
    assert(uuids_of(p)[i] == a.uuid && uuids_of(p)[j] == c.uuid);
    assert(uuids_of(q)[i] == b.uuid && uuids_of(q)[j] == d.uuid);
}

/// Twin simplices have a vertex with the token of `a` and of `b` alike.
pub proof fn lemma_twin_has_token<U, const D: usize>(
    s: Seq<Vertex<U, D>>,
    t: Seq<Vertex<U, D>>,
    a: Vertex<U, D>,
    b: Vertex<U, D>,
    p: Seq<Vertex<U, D>>,
    q: Seq<Vertex<U, D>>,
)
    requires
        twin_pools(p, q),
        twin(s, t, p, q),
        paired(a, b, p, q),
    ensures
        has_token(s, a.uuid) == has_token(t, b.uuid),
{
    if has_token(s, a.uuid) {
        let k = choose|k: int| 0 <= k < s.len() && (#[trigger] s[k]).uuid == a.uuid;
        lemma_paired(s[k], t[k], a, b, p, q);
        assert(t[k].uuid == b.uuid);
    }
    if has_token(t, b.uuid) {
        let k = choose|k: int| 0 <= k < t.len() && (#[trigger] t[k]).uuid == b.uuid;
        assert(paired(s[k], t[k], p, q));
        lemma_paired(s[k], t[k], a, b, p, q);
        assert(s[k].uuid == a.uuid);
    }
}

/// Twin simplices lie at the same place, and answer the circumsphere test
/// alike for paired vertices.
pub proof fn lemma_twin_sphere_test<U, const D: usize>(
    s: Seq<Vertex<U, D>>,
    t: Seq<Vertex<U, D>>,
    a: Vertex<U, D>,
    b: Vertex<U, D>,
    p: Seq<Vertex<U, D>>,
    q: Seq<Vertex<U, D>>,
)
    requires
        twin_pools(p, q),
        twin(s, t, p, q),
        paired(a, b, p, q),
    ensures
        coordinates(s) == coordinates(t),
        sphere_test(s, a) == sphere_test(t, b),
{
    lemma_twin_coordinates(s, t, p, q);
    lemma_paired(a, b, a, b, p, q);
}

/// Filters that agree on twin simplices keep twin working sets twin.
pub proof fn lemma_twin_filter<U, const D: usize>(
    x: Seq<Seq<Vertex<U, D>>>,
    y: Seq<Seq<Vertex<U, D>>>,
    f: spec_fn(Seq<Vertex<U, D>>) -> bool,
    g: spec_fn(Seq<Vertex<U, D>>) -> bool,
    p: Seq<Vertex<U, D>>,
    q: Seq<Vertex<U, D>>,
)
    requires
        twins(x, y, p, q),
        forall|c: int| 0 <= c < x.len() ==> f(#[trigger] x[c]) == g(y[c]),
    ensures
        twins(x.filter(f), y.filter(g), p, q),
    decreases x.len(),
{
    reveal(Seq::filter);
    if x.len() > 0 {
        let front = x.drop_last();
        let other = y.drop_last();
        assert forall|c: int| 0 <= c < front.len() implies twin(#[trigger] front[c], other[c], p, q)
            && f(front[c]) == g(other[c]) by {
            assert(front[c] == x[c] && other[c] == y[c]);
        }
        lemma_twin_filter(front, other, f, g, p, q);
        let last = x.len() - 1;
        assert(x.last() == x[last] && y.last() == y[last]);
        assert(f(x[last]) == g(y[last]));
        let kept = front.filter(f);
        let kept_other = other.filter(g);
        if f(x[last]) {
            assert forall|c: int| 0 <= c < kept.push(x[last]).len() implies twin(
                #[trigger] kept.push(x[last])[c],
                kept_other.push(y[last])[c],
                p,
                q,
            ) by {
                if c < kept.len() {
                    assert(twin(kept[c], kept_other[c], p, q));
                }
            }
        }
    }
}

/// Twin simplices have twin facets.
pub proof fn lemma_twin_remove<U, const D: usize>(
    s: Seq<Vertex<U, D>>,
    t: Seq<Vertex<U, D>>,
    k: int,
    p: Seq<Vertex<U, D>>,
    q: Seq<Vertex<U, D>>,
)
    requires
        twin(s, t, p, q),
        0 <= k < s.len(),
    ensures
        twin(s.remove(k), t.remove(k), p, q),
{
    let f = s.remove(k);
    let g = t.remove(k);
    assert forall|c: int| 0 <= c < f.len() implies paired(#[trigger] f[c], g[c], p, q) by {
        let from = if c < k {
            c
        } else {
            c + 1
        };
        assert(paired(s[from], t[from], p, q));
    }
}

/// Twin facets lie on twin simplices alike.
pub proof fn lemma_twin_lies_on<U, const D: usize>(
    f: Seq<Vertex<U, D>>,
    g: Seq<Vertex<U, D>>,
    s: Seq<Vertex<U, D>>,
    t: Seq<Vertex<U, D>>,
    p: Seq<Vertex<U, D>>,
    q: Seq<Vertex<U, D>>,
)
    requires
        twin_pools(p, q),
        twin(f, g, p, q),
        twin(s, t, p, q),
    ensures
        lies_on(f, s) == lies_on(g, t),
{
    assert forall|k: int| 0 <= k < f.len() implies has_token(s, (#[trigger] f[k]).uuid)
        == has_token(t, g[k].uuid) by {
        assert(paired(f[k], g[k], p, q));
        lemma_twin_has_token(s, t, f[k], g[k], p, q);
    }
    if lies_on(f, s) {
        assert forall|k: int| 0 <= k < g.len() implies has_token(t, (#[trigger] g[k]).uuid) by {
            assert(has_token(s, f[k].uuid));
        }
    }
    if lies_on(g, t) {
        assert forall|k: int| 0 <= k < f.len() implies has_token(s, (#[trigger] f[k]).uuid) by {
            assert(has_token(t, g[k].uuid));
        }
    }
}

/// Twin facets are shared among twin working sets alike.
pub proof fn lemma_twin_shared<U, const D: usize>(
    bad: Seq<Seq<Vertex<U, D>>>,
    other: Seq<Seq<Vertex<U, D>>>,
    i: int,
    f: Seq<Vertex<U, D>>,
    g: Seq<Vertex<U, D>>,
    p: Seq<Vertex<U, D>>,
    q: Seq<Vertex<U, D>>,
)
    requires
        twin_pools(p, q),
        twins(bad, other, p, q),
        twin(f, g, p, q),
    ensures
        shared(bad, i, f) == shared(other, i, g),
{
    assert forall|j: int| 0 <= j < bad.len() implies lies_on(f, #[trigger] bad[j]) == lies_on(
        g,
        other[j],
    ) by {
        lemma_twin_lies_on(f, g, bad[j], other[j], p, q);
    }
    if shared(bad, i, f) {
        let j = choose|j: int| 0 <= j < bad.len() && j != i && lies_on(f, #[trigger] bad[j]);
        assert(lies_on(g, other[j]));
    }
    if shared(other, i, g) {
        let j = choose|j: int| 0 <= j < other.len() && j != i && lies_on(g, #[trigger] other[j]);
        assert(lies_on(f, bad[j]));
    }
}

/// Twin working sets have twin open facets at every simplex.
pub proof fn lemma_twin_open_facets<U, const D: usize>(
    bad: Seq<Seq<Vertex<U, D>>>,
    other: Seq<Seq<Vertex<U, D>>>,
    i: int,
    p: Seq<Vertex<U, D>>,
    q: Seq<Vertex<U, D>>,
)
    requires
        twin_pools(p, q),
        twins(bad, other, p, q),
        0 <= i < bad.len(),
    ensures
        twins(open_facets(bad, i), open_facets(other, i), p, q),
{
    let sides = facets(bad[i]);
    let sides_other = facets(other[i]);
    assert(twin(bad[i], other[i], p, q));
    assert forall|k: int| 0 <= k < sides.len() implies twin(#[trigger] sides[k], sides_other[k], p, q)
        && is_open(bad, i)(sides[k]) == is_open(other, i)(sides_other[k]) by {
        lemma_twin_remove(bad[i], other[i], k, p, q);
        lemma_twin_shared(bad, other, i, sides[k], sides_other[k], p, q);
    }
    lemma_twin_filter(sides, sides_other, is_open(bad, i), is_open(other, i), p, q);
}

/// Twin working sets have twin boundaries.
pub proof fn lemma_twin_boundary<U, const D: usize>(
    bad: Seq<Seq<Vertex<U, D>>>,
    other: Seq<Seq<Vertex<U, D>>>,
    n: nat,
    p: Seq<Vertex<U, D>>,
    q: Seq<Vertex<U, D>>,
)
    requires
        twin_pools(p, q),
        twins(bad, other, p, q),
        n <= bad.len(),
    ensures
        twins(boundary(bad, n), boundary(other, n), p, q),
    decreases n,
{
    if n > 0 {
        lemma_twin_boundary(bad, other, (n - 1) as nat, p, q);
        lemma_twin_open_facets(bad, other, n - 1, p, q);
        lemma_twin_concat(
            boundary(bad, (n - 1) as nat),
            boundary(other, (n - 1) as nat),
            open_facets(bad, n - 1),
            open_facets(other, n - 1),
            p,
            q,
        );
    }
}

/// Twin working sets, put one after the other, are twin.
pub proof fn lemma_twin_concat<U, const D: usize>(
    x: Seq<Seq<Vertex<U, D>>>,
    y: Seq<Seq<Vertex<U, D>>>,
    more: Seq<Seq<Vertex<U, D>>>,
    more_other: Seq<Seq<Vertex<U, D>>>,
    p: Seq<Vertex<U, D>>,
    q: Seq<Vertex<U, D>>,
)
    requires
        twins(x, y, p, q),
        twins(more, more_other, p, q),
    ensures
        twins(x + more, y + more_other, p, q),
{
    assert forall|c: int| 0 <= c < (x + more).len() implies twin(
        #[trigger] (x + more)[c],
        (y + more_other)[c],
        p,
        q,
    ) by {
        if c < x.len() {
            assert(twin(x[c], y[c], p, q));
        } else {
            assert(twin(more[c - x.len()], more_other[c - x.len()], p, q));
        }
    }
}

/// Inserting paired vertices into twin working sets can be decided alike
/// and leaves twin working sets.
pub proof fn lemma_twin_inserted<U, const D: usize>(
    x: Seq<Seq<Vertex<U, D>>>,
    y: Seq<Seq<Vertex<U, D>>>,
    v: Vertex<U, D>,
    w: Vertex<U, D>,
    p: Seq<Vertex<U, D>>,
    q: Seq<Vertex<U, D>>,
)
    requires
        twin_pools(p, q),
        twins(x, y, p, q),
        paired(v, w, p, q),
    ensures
        testable(x, v) == testable(y, w),
        twins(inserted(x, v), inserted(y, w), p, q),
{
    assert forall|c: int| 0 <= c < x.len() implies sphere_test(#[trigger] x[c], v) == sphere_test(
        y[c],
        w,
    ) by {
        lemma_twin_sphere_test(x[c], y[c], v, w, p, q);
    }
    if testable(x, v) {
        assert forall|c: int| 0 <= c < y.len() implies sphere_test(#[trigger] y[c], w) is Ok by {
            assert(sphere_test(x[c], v) is Ok);
        }
    }
    if testable(y, w) {
        assert forall|c: int| 0 <= c < x.len() implies sphere_test(#[trigger] x[c], v) is Ok by {
            assert(sphere_test(y[c], w) is Ok);
        }
    }
    assert forall|c: int| 0 <= c < x.len() implies is_bad(v)(#[trigger] x[c]) == is_bad(w)(y[c])
        && is_kept(v)(x[c]) == is_kept(w)(y[c]) by {
        assert(sphere_test(x[c], v) == sphere_test(y[c], w));
    }
    lemma_twin_filter(x, y, is_bad(v), is_bad(w), p, q);
    lemma_twin_filter(x, y, is_kept(v), is_kept(w), p, q);
    let bad = x.filter(is_bad(v));
    let bad_other = y.filter(is_bad(w));
    lemma_twin_boundary(bad, bad_other, bad.len(), p, q);
    let rim = boundary(bad, bad.len());
    let rim_other = boundary(bad_other, bad_other.len());
    assert(twins(cone(rim, v), cone(rim_other, w), p, q)) by {
        assert forall|c: int| 0 <= c < rim.len() implies twin(
            #[trigger] cone(rim, v)[c],
            cone(rim_other, w)[c],
            p,
            q,
        ) by {
            assert(twin(rim[c], rim_other[c], p, q));
            let s = rim[c].push(v);
            let t = rim_other[c].push(w);
            assert forall|k: int| 0 <= k < s.len() implies paired(#[trigger] s[k], t[k], p, q) by {
                if k < rim[c].len() {
                    assert(paired(rim[c][k], rim_other[c][k], p, q));
                }
            }
        }
    }
    lemma_twin_concat(
        x.filter(is_kept(v)),
        y.filter(is_kept(w)),
        cone(rim, v),
        cone(rim_other, w),
        p,
        q,
    );
}

/// Growing twin working sets by paired vertices succeeds alike and leaves
/// twin working sets.
pub proof fn lemma_twin_grown<U, const D: usize>(
    x: Seq<Seq<Vertex<U, D>>>,
    y: Seq<Seq<Vertex<U, D>>>,
    vs: Seq<Vertex<U, D>>,
    ws: Seq<Vertex<U, D>>,
    n: nat,
    p: Seq<Vertex<U, D>>,
    q: Seq<Vertex<U, D>>,
)
    requires
        twin_pools(p, q),
        twins(x, y, p, q),
        twin(vs, ws, p, q),
        n <= vs.len(),
    ensures
        grown(x, vs, n) is Some == grown(y, ws, n) is Some,
        grown(x, vs, n) is Some ==> twins(grown(x, vs, n).unwrap(), grown(y, ws, n).unwrap(), p, q),
    decreases n,
{
    if n > 0 {
        lemma_twin_grown(x, y, vs, ws, (n - 1) as nat, p, q);
        if grown(x, vs, (n - 1) as nat) is Some {
            let before = grown(x, vs, (n - 1) as nat).unwrap();
            let before_other = grown(y, ws, (n - 1) as nat).unwrap();
            assert(paired(vs[n - 1], ws[n - 1], p, q));
            lemma_twin_inserted(before, before_other, vs[n - 1], ws[n - 1], p, q);
        }
    }
}

/// Twin simplices touch twin scaffolds alike.
pub proof fn lemma_twin_touches<U, const D: usize>(
    s: Seq<Vertex<U, D>>,
    t: Seq<Vertex<U, D>>,
    scaffold: Seq<Vertex<U, D>>,
    frame: Seq<Vertex<U, D>>,
    p: Seq<Vertex<U, D>>,
    q: Seq<Vertex<U, D>>,
)
    requires
        twin_pools(p, q),
        twin(s, t, p, q),
        twin(scaffold, frame, p, q),
    ensures
        touches(s, scaffold) == touches(t, frame),
{
    assert forall|k: int| 0 <= k < s.len() implies has_token(scaffold, (#[trigger] s[k]).uuid)
        == has_token(frame, t[k].uuid) by {
        assert(paired(s[k], t[k], p, q));
        lemma_twin_has_token(scaffold, frame, s[k], t[k], p, q);
    }
    if touches(s, scaffold) {
        let k = choose|k: int| 0 <= k < s.len() && has_token(scaffold, (#[trigger] s[k]).uuid);
        assert(has_token(frame, t[k].uuid));
    }
    if touches(t, frame) {
        let k = choose|k: int| 0 <= k < t.len() && has_token(frame, (#[trigger] t[k]).uuid);
        assert(has_token(scaffold, s[k].uuid));
    }
}

/// The cells do not depend on the tokens. Two runs on vertices that lie at
/// the same places, one after the other, from scaffolds at the same places,
/// succeed alike and end with cells at the same places in the same order,
/// whatever the tokens and the data of the vertices, as long as the tokens
/// differ within each run.
pub proof fn law_cells_do_not_depend_on_tokens<U, const D: usize>(
    vertices: Seq<Vertex<U, D>>,
    scaffold: Seq<Vertex<U, D>>,
    others: Seq<Vertex<U, D>>,
    frame: Seq<Vertex<U, D>>,
)
    requires
        scaffold.len() == frame.len(),
        twin_pools(scaffold + vertices, frame + others),
    ensures
        triangulated(vertices, scaffold) is Some == triangulated(others, frame) is Some,
        triangulated(vertices, scaffold) is Some ==> places(
            triangulated(vertices, scaffold).unwrap(),
        ) == places(triangulated(others, frame).unwrap()),
{
    let p = scaffold + vertices;
    let q = frame + others;
    assert(twin(scaffold, frame, p, q)) by {
        assert forall|k: int| 0 <= k < scaffold.len() implies paired(
            #[trigger] scaffold[k],
            frame[k],
            p,
            q,
        ) by {
            assert(p[k] == scaffold[k] && q[k] == frame[k]);
        }
    }
    assert(twin(vertices, others, p, q)) by {
        assert forall|k: int| 0 <= k < vertices.len() implies paired(
            #[trigger] vertices[k],
            others[k],
            p,
            q,
        ) by {
            let at = scaffold.len() + k;
            assert(p[at] == vertices[k] && q[at] == others[k]);
        }
    }
    let start = seq![scaffold];
    let start_other = seq![frame];
    assert(twins(start, start_other, p, q));
    lemma_twin_grown(start, start_other, vertices, others, vertices.len(), p, q);
    if triangulated(vertices, scaffold) is Some {
        let full = grown(start, vertices, vertices.len()).unwrap();
        let full_other = grown(start_other, others, others.len()).unwrap();
        assert forall|c: int| 0 <= c < full.len() implies is_clear(scaffold)(#[trigger] full[c])
            == is_clear(frame)(full_other[c]) by {
            assert(twin(full[c], full_other[c], p, q));
            lemma_twin_touches(full[c], full_other[c], scaffold, frame, p, q);
        }
        lemma_twin_filter(full, full_other, is_clear(scaffold), is_clear(frame), p, q);
        let cells = full.filter(is_clear(scaffold));
        let cells_other = full_other.filter(is_clear(frame));
        assert(places(cells) =~= places(cells_other)) by {
            assert forall|c: int| 0 <= c < cells.len() implies places(cells)[c] == places(
                cells_other,
            )[c] by {
                assert(twin(cells[c], cells_other[c], p, q));
                lemma_twin_coordinates(cells[c], cells_other[c], p, q);
            }
        }
    }
}

/// Twin simplices lie at the same place.
pub proof fn lemma_twin_coordinates<U, const D: usize>(
    s: Seq<Vertex<U, D>>,
    t: Seq<Vertex<U, D>>,
    p: Seq<Vertex<U, D>>,
    q: Seq<Vertex<U, D>>,
)
    requires
        twin_pools(p, q),
        twin(s, t, p, q),
    ensures
        coordinates(s) == coordinates(t),
{
    assert(coordinates(s) =~= coordinates(t)) by {
        assert forall|k: int| 0 <= k < s.len() implies coordinates(s)[k] == coordinates(t)[k] by {
            assert(paired(s[k], t[k], p, q));
            lemma_paired(s[k], t[k], s[k], t[k], p, q);
        }
    }
}

} // verus!
