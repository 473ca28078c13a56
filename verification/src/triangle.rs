use crate::scalar::Scalar;
use vstd::prelude::*;

verus! {

/// The shape of three feature points, free of rotation, reflection and
/// scale: what two images are compared by.
#[derive(Debug, Clone, Copy)]
pub struct Triangle<S> {
    /// The distances between the three points, in ascending order.
    pub edge_lengths: [S; 3],
    /// The brightness of the three points, in ascending order.
    pub edge_luminance: [S; 3],
    /// The places of the three points in the list they were taken from.
    pub point_indices: [usize; 3],
}

/// How many pairs can be chosen out of `m` things.
pub open spec fn choose2(m: nat) -> nat
    decreases m,
{
    if m == 0 {
        0
    } else {
        choose2((m - 1) as nat) + (m - 1) as nat
    }
}

/// How many triples can be chosen out of `m` things.
pub open spec fn choose3(m: nat) -> nat
    decreases m,
{
    if m == 0 {
        0
    } else {
        choose3((m - 1) as nat) + choose2((m - 1) as nat)
    }
}

/// `choose2(m)` is `m (m - 1) / 2`.
pub proof fn lemma_choose2_closed_form(m: nat)
    ensures
        2 * choose2(m) == m * (m - 1),
    decreases m,
{
    let n = m as int;
    if m > 0 {
        let p = (m - 1) as nat;
        lemma_choose2_closed_form(p);
        let c2 = choose2(p) as int;
        assert(2 * (c2 + (n - 1)) == n * (n - 1)) by (nonlinear_arith)
            requires
                2 * c2 == (n - 1) * ((n - 1) - 1),
        ;
    } else {
        assert(n * (n - 1) == 0) by (nonlinear_arith)
            requires
                n == 0,
        ;
    }
}

/// `choose3(m)` is `m (m - 1) (m - 2) / 6`.
pub proof fn lemma_choose3_closed_form(m: nat)
    ensures
        6 * choose3(m) == m * (m - 1) * (m - 2),
    decreases m,
{
    let n = m as int;
    if m > 0 {
        let p = (m - 1) as nat;
        lemma_choose3_closed_form(p);
        lemma_choose2_closed_form(p);
        let c3 = choose3(p) as int;
        let c2 = choose2(p) as int;
        assert(6 * (c3 + c2) == n * (n - 1) * (n - 2)) by (nonlinear_arith)
            requires
                6 * c3 == (n - 1) * ((n - 1) - 1) * ((n - 1) - 2),
                2 * c2 == (n - 1) * ((n - 1) - 1),
        ;
    } else {
        assert(n * (n - 1) * (n - 2) == 0) by (nonlinear_arith)
            requires
                n == 0,
        ;
    }
}

/// Triangles exist exactly where at least three points take part.
pub proof fn lemma_choose3_positive(n: nat)
    ensures
        choose3(n) > 0 <==> n >= 3,
    decreases n,
{
    reveal_with_fuel(choose3, 4);
    reveal_with_fuel(choose2, 4);
    if n > 3 {
        lemma_choose3_positive((n - 1) as nat);
    }
}

/// The place of the triple `i < j < k` among all ascending triples below
/// `n`, counted in dictionary order.
pub open spec fn triple_index(n: nat, i: nat, j: nat, k: nat) -> int {
    (choose3(n) - choose3((n - i) as nat)) + (choose2((n - i - 1) as nat) - choose2((n - j) as nat))
        + (k - j - 1)
}

/// The three values in ascending order of rank; values of like rank keep
/// the order in which they were given.
pub open spec fn sorted3<S: Scalar>(a: S, b: S, c: S) -> Seq<S> {
    if a.rank() <= b.rank() {
        if b.rank() <= c.rank() {
            seq![a, b, c]
        } else if a.rank() <= c.rank() {
            seq![a, c, b]
        } else {
            seq![c, a, b]
        }
    } else {
        if a.rank() <= c.rank() {
            seq![b, a, c]
        } else if b.rank() <= c.rank() {
            seq![b, c, a]
        } else {
            seq![c, b, a]
        }
    }
}

/// The values of `sorted3` are the three values it was given.
pub proof fn lemma_sorted3_holds_the_same<S: Scalar>(a: S, b: S, c: S, e: int)
    requires
        0 <= e < 3,
    ensures
        sorted3(a, b, c).len() == 3,
        sorted3(a, b, c)[e] == a || sorted3(a, b, c)[e] == b || sorted3(a, b, c)[e] == c,
        sorted3(a, b, c).contains(a),
        sorted3(a, b, c).contains(b),
        sorted3(a, b, c).contains(c),
{
    let s = sorted3(a, b, c);
    assert(s.contains(s[0]) && s.contains(s[1]) && s.contains(s[2]));
}

/// The values of `sorted3` ascend in rank.
pub proof fn lemma_sorted3_ascends<S: Scalar>(a: S, b: S, c: S)
    ensures
        sorted3(a, b, c)[0].rank() <= sorted3(a, b, c)[1].rank() <= sorted3(a, b, c)[2].rank(),
{
}

/// A coordinate as a share of the extent of the image along its axis.
pub open spec fn normalized<S: Scalar>(v: usize, extent: usize) -> S {
    S::spec_from_usize(v).spec_over(S::spec_from_usize(extent))
}

/// The Euclidean distance between two places.
pub open spec fn distance<S: Scalar>(ax: S, ay: S, bx: S, by: S) -> S {
    let dx = ax.spec_minus(bx);
    let dy = ay.spec_minus(by);
    dx.spec_times(dx).spec_plus(dy.spec_times(dy)).spec_sqrt()
}

/// The distance between two feature points of an image of the given size,
/// each coordinate taken as a share of the image's extent.
pub open spec fn point_distance<S: Scalar>(
    p: (usize, usize, S),
    q: (usize, usize, S),
    width: usize,
    height: usize,
) -> S {
    distance(
        normalized::<S>(p.0, width),
        normalized::<S>(p.1, height),
        normalized::<S>(q.0, width),
        normalized::<S>(q.1, height),
    )
}

/// Whether `t` is the descriptor of the points at places `i`, `j` and `k` of
/// `points`.
pub open spec fn describes<S: Scalar>(
    t: Triangle<S>,
    points: Seq<(usize, usize, S)>,
    width: usize,
    height: usize,
    i: int,
    j: int,
    k: int,
) -> bool {
    &&& t.edge_lengths@ == sorted3(
        point_distance(points[i], points[j], width, height),
        point_distance(points[j], points[k], width, height),
        point_distance(points[i], points[k], width, height),
    )
    &&& t.edge_luminance@ == sorted3(points[i].2, points[j].2, points[k].2)
    &&& t.point_indices@ == seq![i as usize, j as usize, k as usize]
}

/// Whether `triangles` holds exactly one descriptor for every three of the
/// first `n` points, the triples in dictionary order of their ascending
/// places.
pub open spec fn lists_triangles<S: Scalar>(
    triangles: Seq<Triangle<S>>,
    points: Seq<(usize, usize, S)>,
    width: usize,
    height: usize,
    n: nat,
) -> bool {
    &&& triangles.len() == choose3(n)
    &&& forall|m: int|
        0 <= m < triangles.len() ==> {
            let i = (#[trigger] triangles[m]).point_indices@[0] as int;
            let j = triangles[m].point_indices@[1] as int;
            let k = triangles[m].point_indices@[2] as int;
            &&& 0 <= i < j < k < n
            &&& describes(triangles[m], points, width, height, i, j, k)
            &&& triple_index(n, i as nat, j as nat, k as nat) == m
        }
    &&& forall|i: int, j: int, k: int|
        0 <= i < j < k < n ==> {
            &&& 0 <= #[trigger] triple_index(n, i as nat, j as nat, k as nat) < triangles.len()
            &&& describes(
                triangles[triple_index(n, i as nat, j as nat, k as nat)],
                points,
                width,
                height,
                i,
                j,
                k,
            )
        }
}

/// In every listed descriptor the edge lengths ascend, and so does the
/// brightness.
pub proof fn lemma_descriptors_ascend<S: Scalar>(
    triangles: Seq<Triangle<S>>,
    points: Seq<(usize, usize, S)>,
    width: usize,
    height: usize,
    n: nat,
    m: int,
)
    requires
        lists_triangles(triangles, points, width, height, n),
        0 <= m < triangles.len(),
    ensures
        triangles[m].edge_lengths@[0].rank() <= triangles[m].edge_lengths@[1].rank()
            <= triangles[m].edge_lengths@[2].rank(),
        triangles[m].edge_luminance@[0].rank() <= triangles[m].edge_luminance@[1].rank()
            <= triangles[m].edge_luminance@[2].rank(),
{
    let t = triangles[m];
    let i = t.point_indices@[0] as int;
    let j = t.point_indices@[1] as int;
    let k = t.point_indices@[2] as int;
    assert(describes(t, points, width, height, i, j, k));
    lemma_sorted3_ascends(
        point_distance(points[i], points[j], width, height),
        point_distance(points[j], points[k], width, height),
        point_distance(points[i], points[k], width, height),
    );
    lemma_sorted3_ascends(points[i].2, points[j].2, points[k].2);
}

/// How many of the points take part: at most `take`.
pub open spec fn taken(len: nat, take: usize) -> nat {
    if len <= take {
        len
    } else {
        take as nat
    }
}

/// The three values in ascending order of rank.
fn sort3<S: Scalar>(a: S, b: S, c: S) -> (r: [S; 3])
    ensures
        r@ == sorted3(a, b, c),
{
    let r = if a.le(b) {
        if b.le(c) {
            [a, b, c]
        } else if a.le(c) {
            [a, c, b]
        } else {
            [c, a, b]
        }
    } else {
        if a.le(c) {
            [b, a, c]
        } else if b.le(c) {
            [b, c, a]
        } else {
            [c, b, a]
        }
    };
    assert(r@ =~= sorted3(a, b, c));
    r
}

/// The distance between two feature points of an image of the given size.
fn distance_between<S: Scalar>(
    p: (usize, usize, S),
    q: (usize, usize, S),
    width: usize,
    height: usize,
) -> (d: S)
    ensures
        d == point_distance(p, q, width, height),
{
    let w = S::from_usize(width);
    let h = S::from_usize(height);
    let px = S::from_usize(p.0).over(w);
    let py = S::from_usize(p.1).over(h);
    let qx = S::from_usize(q.0).over(w);
    let qy = S::from_usize(q.1).over(h);
    let dx = px.minus(qx);
    let dy = py.minus(qy);
    dx.times(dx).plus(dy.times(dy)).sqrt()
}

/// The descriptor of three feature points.
pub fn triangle_of<S: Scalar>(
    points: &[(usize, usize, S)],
    width: usize,
    height: usize,
    i: usize,
    j: usize,
    k: usize,
) -> (t: Triangle<S>)
    requires
        i < points@.len(),
        j < points@.len(),
        k < points@.len(),
    ensures
        describes(t, points@, width, height, i as int, j as int, k as int),
{
    let a = points[i];
    let b = points[j];
    let c = points[k];
    let ab = distance_between(a, b, width, height);
    let bc = distance_between(b, c, width, height);
    let ac = distance_between(a, c, width, height);
    let edge_lengths = sort3(ab, bc, ac);
    let edge_luminance = sort3(a.2, b.2, c.2);
    let point_indices = [i, j, k];
    assert(point_indices@ =~= seq![i, j, k]);
    Triangle { edge_lengths, edge_luminance, point_indices }
}

/// Whether the triple (`a`, `b`, `c`) comes no later than (`i`, `j`, `k`) in
/// dictionary order.
pub open spec fn no_later(a: int, b: int, c: int, i: int, j: int, k: int) -> bool {
    a < i || (a == i && (b < j || (b == j && c <= k)))
}

/// Of the six orders in which three places can be visited, the ascending one
/// comes first in dictionary order: where all triples of places are gone
/// through in that order and each set of three is taken once, at its first
/// visit, the triples taken are the ascending ones.
pub proof fn lemma_ascending_order_comes_first(a: int, b: int, c: int, i: int, j: int, k: int)
    requires
        a < b < c,
        i != j && j != k && i != k,
        i == a || i == b || i == c,
        j == a || j == b || j == c,
        k == a || k == b || k == c,
    ensures
        no_later(a, b, c, i, j, k),
{
}

/// Whether every descriptor pushed so far is in its place and says where it
/// came from.
spec fn placed<S: Scalar>(
    triangles: Seq<Triangle<S>>,
    points: Seq<(usize, usize, S)>,
    width: usize,
    height: usize,
    n: nat,
) -> bool {
    forall|m: int|
        0 <= m < triangles.len() ==> {
            let i = (#[trigger] triangles[m]).point_indices@[0] as int;
            let j = triangles[m].point_indices@[1] as int;
            let k = triangles[m].point_indices@[2] as int;
            &&& 0 <= i < j < k < n
            &&& describes(triangles[m], points, width, height, i, j, k)
            &&& triple_index(n, i as nat, j as nat, k as nat) == m
        }
}

/// Whether every triple that comes before (`i`, `j`, `k`) in dictionary
/// order has its descriptor in the list.
spec fn covered<S: Scalar>(
    triangles: Seq<Triangle<S>>,
    points: Seq<(usize, usize, S)>,
    width: usize,
    height: usize,
    n: nat,
    i: int,
    j: int,
    k: int,
) -> bool {
    forall|a: int, b: int, c: int|
        0 <= a < b < c < n && (a < i || (a == i && b < j) || (a == i && b == j && c < k)) ==> {
            &&& 0 <= #[trigger] triple_index(n, a as nat, b as nat, c as nat) < triangles.len()
            &&& describes(
                triangles[triple_index(n, a as nat, b as nat, c as nat)],
                points,
                width,
                height,
                a,
                b,
                c,
            )
        }
}

/// One descriptor for every three of the first `take` points.
///
/// Of the six orders in which three places can be visited only the ascending
/// one is kept, so no triangle is described twice and none is missed; the
/// descriptors come in dictionary order of their places.
pub fn generate_all_triangles<S: Scalar>(
    width: usize,
    height: usize,
    points: &[(usize, usize, S)],
    take: usize,
) -> (triangles: Vec<Triangle<S>>)
    ensures
        lists_triangles(triangles@, points@, width, height, taken(points@.len(), take)),
        triangles@.len() == choose3(taken(points@.len(), take)),
        6 * triangles@.len() == taken(points@.len(), take) * (taken(points@.len(), take) - 1) * (
        taken(points@.len(), take) - 2),
{
    let n: usize = if points.len() <= take {
        points.len()
    } else {
        take
    };
    let ghost nn = n as nat;
    let mut triangles: Vec<Triangle<S>> = Vec::new();
    let mut i: usize = 0;
    while i < n
        invariant
            n <= points@.len(),
            nn == n,
            i <= n,
            triangles@.len() == choose3(nn) - choose3((nn - i) as nat),
            placed(triangles@, points@, width, height, nn),
            covered(triangles@, points@, width, height, nn, i as int, 0, 0),
        decreases n - i,
    {
        let mut j: usize = i + 1;
        while j < n
            invariant
                n <= points@.len(),
                nn == n,
                i < n,
                i < j <= n,
                triangles@.len() == choose3(nn) - choose3((nn - i) as nat) + choose2(
                    (nn - i - 1) as nat,
                ) - choose2((nn - j) as nat),
                placed(triangles@, points@, width, height, nn),
                covered(triangles@, points@, width, height, nn, i as int, j as int, 0),
            decreases n - j,
        {
            let mut k: usize = j + 1;
            while k < n
                invariant
                    n <= points@.len(),
                    nn == n,
                    i < j < n,
                    j < k <= n,
                    triangles@.len() == triple_index(nn, i as nat, j as nat, k as nat),
                    placed(triangles@, points@, width, height, nn),
                    covered(triangles@, points@, width, height, nn, i as int, j as int, k as int),
                decreases n - k,
            {
                let t = triangle_of(points, width, height, i, j, k);
                let ghost before = triangles@;
                triangles.push(t);
                proof {
                    assert(triangles@[before.len() as int] == t);
                    assert forall|m: int| 0 <= m < triangles@.len() implies {
                        let a = (#[trigger] triangles@[m]).point_indices@[0] as int;
                        let b = triangles@[m].point_indices@[1] as int;
                        let c = triangles@[m].point_indices@[2] as int;
                        &&& 0 <= a < b < c < nn
                        &&& describes(triangles@[m], points@, width, height, a, b, c)
                        &&& triple_index(nn, a as nat, b as nat, c as nat) == m
                    } by {
                        if m < before.len() {
                            assert(triangles@[m] == before[m]);
                        }
                    }
                    assert forall|a: int, b: int, c: int|
                        0 <= a < b < c < nn && (a < i || (a == i && b < j) || (a == i && b == j
                            && c < k + 1)) implies {
                        &&& 0 <= #[trigger] triple_index(nn, a as nat, b as nat, c as nat)
                            < triangles@.len()
                        &&& describes(
                            triangles@[triple_index(nn, a as nat, b as nat, c as nat)],
                            points@,
                            width,
                            height,
                            a,
                            b,
                            c,
                        )
                    } by {
                        if a == i && b == j && c == k {
                        } else {
                            let m = triple_index(nn, a as nat, b as nat, c as nat);
                            assert(0 <= m < before.len());
                            assert(triangles@[m] == before[m]);
                        }
                    }
                }
                k += 1;
            }
            proof {
                assert(choose2((nn - j) as nat) == choose2((nn - j - 1) as nat) + (nn - j - 1));
            }
            j += 1;
        }
        proof {
            assert(choose3((nn - i) as nat) == choose3((nn - i - 1) as nat) + choose2(
                (nn - i - 1) as nat,
            ));
            assert(choose2(0) == 0);
        }
        i += 1;
    }
    proof {
        assert(choose3(0) == 0);
        lemma_choose3_closed_form(nn);
    }
    triangles
}

} // verus!
