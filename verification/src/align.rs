use crate::scalar::{zero, Scalar};
use crate::triangle::{
    describes, generate_all_triangles, lemma_choose3_positive,
    lemma_sorted3_holds_the_same, lists_triangles, point_distance, sorted3, taken, triple_index,
    Triangle,
};
use vstd::prelude::*;

verus! {

/// Whether two values differ by less than the threshold.
pub open spec fn close<S: Scalar>(a: S, b: S, threshold: S) -> bool {
    a.spec_minus(b).spec_abs().rank() < threshold.rank()
}

/// Whether two descriptors are alike: the ratios of their shortest to their
/// middle edge, of their middle to their longest edge, and the same two
/// ratios of their brightness, each differ by less than the threshold.
pub open spec fn similar<S: Scalar>(t1: Triangle<S>, t2: Triangle<S>, threshold: S) -> bool {
    &&& close(
        t1.edge_lengths@[0].spec_over(t1.edge_lengths@[1]),
        t2.edge_lengths@[0].spec_over(t2.edge_lengths@[1]),
        threshold,
    )
    &&& close(
        t1.edge_lengths@[1].spec_over(t1.edge_lengths@[2]),
        t2.edge_lengths@[1].spec_over(t2.edge_lengths@[2]),
        threshold,
    )
    &&& close(
        t1.edge_luminance@[0].spec_over(t1.edge_luminance@[1]),
        t2.edge_luminance@[0].spec_over(t2.edge_luminance@[1]),
        threshold,
    )
    &&& close(
        t1.edge_luminance@[1].spec_over(t1.edge_luminance@[2]),
        t2.edge_luminance@[1].spec_over(t2.edge_luminance@[2]),
        threshold,
    )
}

/// Whether no edge of the descriptor has length zero.
pub open spec fn edges_nonzero<S: Scalar>(t: Triangle<S>) -> bool {
    &&& t.edge_lengths@[0].rank() != zero::<S>().rank()
    &&& t.edge_lengths@[1].rank() != zero::<S>().rank()
    &&& t.edge_lengths@[2].rank() != zero::<S>().rank()
}

/// The pairs of `t1` with those of the first `n` descriptors of `others`
/// that are like it, in the order of `others`.
pub open spec fn row_matches<S: Scalar>(
    t1: Triangle<S>,
    others: Seq<Triangle<S>>,
    threshold: S,
    n: nat,
) -> Seq<(Triangle<S>, Triangle<S>)>
    decreases n,
{
    if n == 0 {
        Seq::empty()
    } else {
        let rest = row_matches(t1, others, threshold, (n - 1) as nat);
        if similar(t1, others[n - 1], threshold) {
            rest.push((t1, others[n - 1]))
        } else {
            rest
        }
    }
}

/// Every pair of one of the first `m` descriptors of `first` with a
/// descriptor of `second` that is like it: for each of `first` in turn, its
/// pairs in the order of `second`.
pub open spec fn all_matches<S: Scalar>(
    first: Seq<Triangle<S>>,
    second: Seq<Triangle<S>>,
    threshold: S,
    m: nat,
) -> Seq<(Triangle<S>, Triangle<S>)>
    decreases m,
{
    if m == 0 {
        Seq::empty()
    } else {
        all_matches(first, second, threshold, (m - 1) as nat) + row_matches(
            first[m - 1],
            second,
            threshold,
            second.len(),
        )
    }
}

/// Whether no edge of the descriptor has length zero.
pub fn has_nonzero_edges<S: Scalar>(t: &Triangle<S>) -> (b: bool)
    ensures
        b == edges_nonzero(*t),
{
    let nought = S::from_usize(0);
    differs(t.edge_lengths[0], nought) && differs(t.edge_lengths[1], nought) && differs(
        t.edge_lengths[2],
        nought,
    )
}

/// Whether every descriptor of the list has edges other than zero.
pub fn all_have_nonzero_edges<S: Scalar>(triangles: &[Triangle<S>]) -> (b: bool)
    ensures
        b == forall|m: int| 0 <= m < triangles@.len() ==> edges_nonzero(#[trigger] triangles@[m]),
{
    let mut m: usize = 0;
    while m < triangles.len()
        invariant
            m <= triangles@.len(),
            forall|a: int| 0 <= a < m ==> edges_nonzero(#[trigger] triangles@[a]),
        decreases triangles@.len() - m,
    {
        if !has_nonzero_edges(&triangles[m]) {
            return false;
        }
        m += 1;
    }
    true
}

/// Whether two values differ in rank.
fn differs<S: Scalar>(a: S, b: S) -> (r: bool)
    ensures
        r == (a.rank() != b.rank()),
{
    !(a.le(b) && b.le(a))
}

/// Whether two values differ by less than the threshold.
fn is_close<S: Scalar>(a: S, b: S, threshold: S) -> (r: bool)
    ensures
        r == close(a, b, threshold),
{
    !threshold.le(a.minus(b).abs())
}

/// Whether two descriptors are alike.
fn is_similar<S: Scalar>(t1: &Triangle<S>, t2: &Triangle<S>, threshold: S) -> (r: bool)
    ensures
        r == similar(*t1, *t2, threshold),
{
    let ab1 = t1.edge_lengths[0].over(t1.edge_lengths[1]);
    let bc1 = t1.edge_lengths[1].over(t1.edge_lengths[2]);
    let abl1 = t1.edge_luminance[0].over(t1.edge_luminance[1]);
    let bcl1 = t1.edge_luminance[1].over(t1.edge_luminance[2]);
    let ab2 = t2.edge_lengths[0].over(t2.edge_lengths[1]);
    let bc2 = t2.edge_lengths[1].over(t2.edge_lengths[2]);
    let abl2 = t2.edge_luminance[0].over(t2.edge_luminance[1]);
    let bcl2 = t2.edge_luminance[1].over(t2.edge_luminance[2]);
    is_close(ab1, ab2, threshold) && is_close(bc1, bc2, threshold) && is_close(
        abl1,
        abl2,
        threshold,
    ) && is_close(bcl1, bcl2, threshold)
}

/// Every pair of a descriptor of the first list with a descriptor of the
/// second that is like it.
///
/// All pairs are returned, none is preferred: for each descriptor of the
/// first list in turn, its pairs in the order of the second list.
pub fn match_triangles<S: Scalar>(
    triangles1: &[Triangle<S>],
    triangles2: &[Triangle<S>],
    threshold: S,
) -> (pairs: Vec<(Triangle<S>, Triangle<S>)>)
    requires
        forall|a: int| 0 <= a < triangles1@.len() ==> edges_nonzero(#[trigger] triangles1@[a]),
        triangles1@.len() > 0 ==> forall|b: int|
            0 <= b < triangles2@.len() ==> edges_nonzero(#[trigger] triangles2@[b]),
    ensures
        pairs@ == all_matches(triangles1@, triangles2@, threshold, triangles1@.len()),
{
    let mut pairs: Vec<(Triangle<S>, Triangle<S>)> = Vec::new();
    let mut a: usize = 0;
    while a < triangles1.len()
        invariant
            a <= triangles1@.len(),
            pairs@ == all_matches(triangles1@, triangles2@, threshold, a as nat),
        decreases triangles1@.len() - a,
    {
        let t1 = triangles1[a];
        let ghost before = pairs@;
        let mut b: usize = 0;
        while b < triangles2.len()
            invariant
                a < triangles1@.len(),
                t1 == triangles1@[a as int],
                b <= triangles2@.len(),
                pairs@ == before + row_matches(t1, triangles2@, threshold, b as nat),
            decreases triangles2@.len() - b,
        {
            let t2 = triangles2[b];
            let ghost row = row_matches(t1, triangles2@, threshold, b as nat);
            if is_similar(&t1, &t2, threshold) {
                pairs.push((t1, t2));
                assert(pairs@ =~= before + row.push((t1, t2)));
            }
            b += 1;
        }
        a += 1;
    }
    pairs
}

/// How many points of each image take part in the matching.
pub const TAKE: usize = 30;

/// Whether the points at places `i`, `j` and `k` lie apart: none of the three
/// distances between them is zero.
pub open spec fn lie_apart<S: Scalar>(
    points: Seq<(usize, usize, S)>,
    width: usize,
    height: usize,
    i: int,
    j: int,
    k: int,
) -> bool {
    &&& point_distance(points[i], points[j], width, height).rank() != zero::<S>().rank()
    &&& point_distance(points[j], points[k], width, height).rank() != zero::<S>().rank()
    &&& point_distance(points[i], points[k], width, height).rank() != zero::<S>().rank()
}

/// Whether no two of the first `n` points that share a triangle lie on the
/// same place: every edge of every triangle has a length other than zero.
pub open spec fn edges_are_nonzero<S: Scalar>(
    points: Seq<(usize, usize, S)>,
    width: usize,
    height: usize,
    n: nat,
) -> bool {
    forall|i: int, j: int, k: int|
        0 <= i < j < k < n ==> #[trigger] lie_apart(points, width, height, i, j, k)
}

/// Where no edge between the points is zero, no edge of a listed descriptor
/// is.
pub proof fn lemma_listed_edges_nonzero<S: Scalar>(
    triangles: Seq<Triangle<S>>,
    points: Seq<(usize, usize, S)>,
    width: usize,
    height: usize,
    n: nat,
)
    requires
        lists_triangles(triangles, points, width, height, n),
        edges_are_nonzero(points, width, height, n),
    ensures
        forall|m: int| 0 <= m < triangles.len() ==> edges_nonzero(#[trigger] triangles[m]),
{
    assert forall|m: int| 0 <= m < triangles.len() implies edges_nonzero(
        #[trigger] triangles[m],
    ) by {
        let t = triangles[m];
        let i = t.point_indices@[0] as int;
        let j = t.point_indices@[1] as int;
        let k = t.point_indices@[2] as int;
        assert(triple_index(n, i as nat, j as nat, k as nat) == m);
        assert(lie_apart(points, width, height, i, j, k));
        let a = point_distance(points[i], points[j], width, height);
        let b = point_distance(points[j], points[k], width, height);
        let c = point_distance(points[i], points[k], width, height);
        lemma_sorted3_holds_the_same(a, b, c, 0);
        lemma_sorted3_holds_the_same(a, b, c, 1);
        lemma_sorted3_holds_the_same(a, b, c, 2);
    }
}

/// Where no edge of a listed descriptor is zero, no edge between the points
/// is.
pub proof fn lemma_nonzero_edges_listed<S: Scalar>(
    triangles: Seq<Triangle<S>>,
    points: Seq<(usize, usize, S)>,
    width: usize,
    height: usize,
    n: nat,
)
    requires
        lists_triangles(triangles, points, width, height, n),
        forall|m: int| 0 <= m < triangles.len() ==> edges_nonzero(#[trigger] triangles[m]),
    ensures
        edges_are_nonzero(points, width, height, n),
{
    assert forall|i: int, j: int, k: int| 0 <= i < j < k < n implies #[trigger] lie_apart(
        points,
        width,
        height,
        i,
        j,
        k,
    ) by {
        let m = triple_index(n, i as nat, j as nat, k as nat);
        let t = triangles[m];
        assert(edges_nonzero(t));
        assert(describes(t, points, width, height, i, j, k));
        let a = point_distance(points[i], points[j], width, height);
        let b = point_distance(points[j], points[k], width, height);
        let c = point_distance(points[i], points[k], width, height);
        let s = sorted3(a, b, c);
        lemma_sorted3_holds_the_same(a, b, c, 0);
        let ia = choose|e: int| 0 <= e < s.len() && s[e] == a;
        let ib = choose|e: int| 0 <= e < s.len() && s[e] == b;
        let ic = choose|e: int| 0 <= e < s.len() && s[e] == c;
        assert(t.edge_lengths@[ia] == a);
        assert(t.edge_lengths@[ib] == b);
        assert(t.edge_lengths@[ic] == c);
    }
}

/// Whether the two lists of points may be matched: no edge of a triangle of
/// the first image is zero, and, where the first image has a triangle at
/// all, none of the second image is.
pub open spec fn can_align<S: Scalar>(
    width: usize,
    height: usize,
    points1: Seq<(usize, usize, S)>,
    points2: Seq<(usize, usize, S)>,
) -> bool {
    &&& edges_are_nonzero(points1, width, height, taken(points1.len(), TAKE))
    &&& taken(points1.len(), TAKE) >= 3 ==> edges_are_nonzero(
        points2,
        width,
        height,
        taken(points2.len(), TAKE),
    )
}

/// Whether `pairs` is what matching the two lists of points gives.
pub open spec fn aligns<S: Scalar>(
    pairs: Seq<(Triangle<S>, Triangle<S>)>,
    width: usize,
    height: usize,
    points1: Seq<(usize, usize, S)>,
    points2: Seq<(usize, usize, S)>,
    threshold: S,
) -> bool {
    exists|first: Seq<Triangle<S>>, second: Seq<Triangle<S>>|
        {
            &&& lists_triangles(first, points1, width, height, taken(points1.len(), TAKE))
            &&& lists_triangles(second, points2, width, height, taken(points2.len(), TAKE))
            &&& pairs == all_matches(first, second, threshold, first.len())
        }
}

/// The candidate correspondences between the feature points of two images
/// of the same size.
///
/// Of each list the first `TAKE` points take part. Every three of them are
/// described by a triangle, and every pair of a triangle of the first image
/// with a like triangle of the second is returned.
pub fn align<S: Scalar>(
    width: usize,
    height: usize,
    points1: &[(usize, usize, S)],
    points2: &[(usize, usize, S)],
    threshold: S,
) -> (pairs: Vec<(Triangle<S>, Triangle<S>)>)
    requires
        can_align(width, height, points1@, points2@),
    ensures
        aligns(pairs@, width, height, points1@, points2@, threshold),
{
    let triangles1 = generate_all_triangles(width, height, points1, TAKE);
    let triangles2 = generate_all_triangles(width, height, points2, TAKE);
    proof {
        lemma_listed_edges_nonzero(
            triangles1@,
            points1@,
            width,
            height,
            taken(points1@.len(), TAKE),
        );
        lemma_choose3_positive(taken(points1@.len(), TAKE));
        if triangles1@.len() > 0 {
            lemma_listed_edges_nonzero(
                triangles2@,
                points2@,
                width,
                height,
                taken(points2@.len(), TAKE),
            );
        }
    }
    let pairs = match_triangles(triangles1.as_slice(), triangles2.as_slice(), threshold);
    proof {
        assert(lists_triangles(
            triangles1@,
            points1@,
            width,
            height,
            taken(points1@.len(), TAKE),
        ));
    }
    pairs
}

/// The candidate correspondences between the feature points of two images,
/// or nothing where a triangle has an edge of length zero.
pub fn try_align<S: Scalar>(
    width: usize,
    height: usize,
    points1: &[(usize, usize, S)],
    points2: &[(usize, usize, S)],
    threshold: S,
) -> (result: Option<Vec<(Triangle<S>, Triangle<S>)>>)
    ensures
        result.is_some() == can_align(width, height, points1@, points2@),
        result matches Some(pairs) ==> aligns(
            pairs@,
            width,
            height,
            points1@,
            points2@,
            threshold,
        ),
{
    let ghost n1 = taken(points1@.len(), TAKE);
    let ghost n2 = taken(points2@.len(), TAKE);
    let triangles1 = generate_all_triangles(width, height, points1, TAKE);
    let triangles2 = generate_all_triangles(width, height, points2, TAKE);
    proof {
        lemma_choose3_positive(n1);
    }
    if !all_have_nonzero_edges(triangles1.as_slice()) {
        proof {
            if edges_are_nonzero(points1@, width, height, n1) {
                lemma_listed_edges_nonzero(triangles1@, points1@, width, height, n1);
            }
        }
        return None;
    }
    proof {
        lemma_nonzero_edges_listed(triangles1@, points1@, width, height, n1);
    }
    if triangles1.len() > 0 {
        if !all_have_nonzero_edges(triangles2.as_slice()) {
            proof {
                if edges_are_nonzero(points2@, width, height, n2) {
                    lemma_listed_edges_nonzero(triangles2@, points2@, width, height, n2);
                }
            }
            return None;
        }
        proof {
            lemma_nonzero_edges_listed(triangles2@, points2@, width, height, n2);
        }
    }
    let pairs = match_triangles(triangles1.as_slice(), triangles2.as_slice(), threshold);
    proof {
        assert(lists_triangles(triangles1@, points1@, width, height, n1));
        assert(lists_triangles(triangles2@, points2@, width, height, n2));
    }
    Some(pairs)
}

/// Two values are close whichever is named first.
pub proof fn lemma_close_symmetric<S: Scalar>(a: S, b: S, threshold: S)
    ensures
        close(a, b, threshold) == close(b, a, threshold),
{
    S::lemma_gap_symmetric(a, b);
}

/// Two descriptors are alike whichever is named first.
pub proof fn lemma_similar_symmetric<S: Scalar>(t1: Triangle<S>, t2: Triangle<S>, threshold: S)
    ensures
        similar(t1, t2, threshold) == similar(t2, t1, threshold),
{
    lemma_close_symmetric(
        t1.edge_lengths@[0].spec_over(t1.edge_lengths@[1]),
        t2.edge_lengths@[0].spec_over(t2.edge_lengths@[1]),
        threshold,
    );
    lemma_close_symmetric(
        t1.edge_lengths@[1].spec_over(t1.edge_lengths@[2]),
        t2.edge_lengths@[1].spec_over(t2.edge_lengths@[2]),
        threshold,
    );
    lemma_close_symmetric(
        t1.edge_luminance@[0].spec_over(t1.edge_luminance@[1]),
        t2.edge_luminance@[0].spec_over(t2.edge_luminance@[1]),
        threshold,
    );
    lemma_close_symmetric(
        t1.edge_luminance@[1].spec_over(t1.edge_luminance@[2]),
        t2.edge_luminance@[1].spec_over(t2.edge_luminance@[2]),
        threshold,
    );
}

/// Whether `pair` joins `t1` to one of the first `n` of `others` that is
/// like it.
pub open spec fn joins_in_row<S: Scalar>(
    pair: (Triangle<S>, Triangle<S>),
    t1: Triangle<S>,
    others: Seq<Triangle<S>>,
    threshold: S,
    n: nat,
) -> bool {
    exists|b: int|
        0 <= b < n && pair == (t1, #[trigger] others[b]) && similar(t1, others[b], threshold)
}

/// Whether `pair` joins one of the first `m` of `first` to one of `second`
/// that is like it.
pub open spec fn joins<S: Scalar>(
    pair: (Triangle<S>, Triangle<S>),
    first: Seq<Triangle<S>>,
    second: Seq<Triangle<S>>,
    threshold: S,
    m: nat,
) -> bool {
    exists|a: int, b: int|
        0 <= a < m && 0 <= b < second.len() && pair == (#[trigger] first[a], #[trigger] second[b])
            && similar(first[a], second[b], threshold)
}

/// A row of the matcher's output holds exactly the like pairs of its
/// descriptor.
pub proof fn lemma_row_matches_holds<S: Scalar>(
    pair: (Triangle<S>, Triangle<S>),
    t1: Triangle<S>,
    others: Seq<Triangle<S>>,
    threshold: S,
    n: nat,
)
    requires
        n <= others.len(),
    ensures
        row_matches(t1, others, threshold, n).contains(pair) <==> joins_in_row(
            pair,
            t1,
            others,
            threshold,
            n,
        ),
    decreases n,
{
    if n == 0 {
        assert(!row_matches(t1, others, threshold, n).contains(pair));
    } else {
        let rest = row_matches(t1, others, threshold, (n - 1) as nat);
        lemma_row_matches_holds(pair, t1, others, threshold, (n - 1) as nat);
        vstd::seq_lib::lemma_seq_contains_after_push(rest, (t1, others[n - 1]), pair);
        if joins_in_row(pair, t1, others, threshold, n) {
            let b = choose|b: int|
                0 <= b < n && pair == (t1, #[trigger] others[b]) && similar(
                    t1,
                    others[b],
                    threshold,
                );
            if b < n - 1 {
                assert(joins_in_row(pair, t1, others, threshold, (n - 1) as nat));
            }
        }
        if joins_in_row(pair, t1, others, threshold, (n - 1) as nat) {
            let b = choose|b: int|
                0 <= b < n - 1 && pair == (t1, #[trigger] others[b]) && similar(
                    t1,
                    others[b],
                    threshold,
                );
            assert(0 <= b < n && pair == (t1, others[b]));
        }
        if similar(t1, others[n - 1], threshold) && pair == (t1, others[n - 1]) {
            assert(0 <= n - 1 < n && pair == (t1, others[n - 1]));
        }
    }
}

/// The matcher's output holds exactly the like pairs of the two lists.
pub proof fn lemma_all_matches_holds<S: Scalar>(
    pair: (Triangle<S>, Triangle<S>),
    first: Seq<Triangle<S>>,
    second: Seq<Triangle<S>>,
    threshold: S,
    m: nat,
)
    requires
        m <= first.len(),
    ensures
        all_matches(first, second, threshold, m).contains(pair) <==> joins(
            pair,
            first,
            second,
            threshold,
            m,
        ),
    decreases m,
{
    if m == 0 {
        assert(!all_matches(first, second, threshold, m).contains(pair));
    } else {
        let before = all_matches(first, second, threshold, (m - 1) as nat);
        let row = row_matches(first[m - 1], second, threshold, second.len());
        lemma_all_matches_holds(pair, first, second, threshold, (m - 1) as nat);
        lemma_row_matches_holds(pair, first[m - 1], second, threshold, second.len());
        vstd::seq_lib::lemma_seq_concat_contains_all_elements(before, row, pair);
        if joins(pair, first, second, threshold, m) {
            let (a, b) = choose|a: int, b: int|
                0 <= a < m && 0 <= b < second.len() && pair == (
                    #[trigger] first[a],
                    #[trigger] second[b],
                ) && similar(first[a], second[b], threshold);
            if a < m - 1 {
                assert(joins(pair, first, second, threshold, (m - 1) as nat));
            } else {
                assert(joins_in_row(pair, first[m - 1], second, threshold, second.len()));
            }
        }
        if joins(pair, first, second, threshold, (m - 1) as nat) {
            let (a, b) = choose|a: int, b: int|
                0 <= a < m - 1 && 0 <= b < second.len() && pair == (
                    #[trigger] first[a],
                    #[trigger] second[b],
                ) && similar(first[a], second[b], threshold);
            assert(0 <= a < m && pair == (first[a], second[b]));
        }
        if joins_in_row(pair, first[m - 1], second, threshold, second.len()) {
            let b = choose|b: int|
                0 <= b < second.len() && pair == (first[m - 1], #[trigger] second[b]) && similar(
                    first[m - 1],
                    second[b],
                    threshold,
                );
            assert(0 <= m - 1 < m && pair == (first[m - 1], second[b]));
        }
    }
}

/// Matching the second list against the first gives the mirror image of
/// matching the first against the second: a pair is found one way exactly
/// when the swapped pair is found the other way.
pub proof fn lemma_matcher_symmetric<S: Scalar>(
    first: Seq<Triangle<S>>,
    second: Seq<Triangle<S>>,
    threshold: S,
    t1: Triangle<S>,
    t2: Triangle<S>,
)
    ensures
        all_matches(first, second, threshold, first.len()).contains((t1, t2)) <==> all_matches(
            second,
            first,
            threshold,
            second.len(),
        ).contains((t2, t1)),
{
    lemma_all_matches_holds((t1, t2), first, second, threshold, first.len());
    lemma_all_matches_holds((t2, t1), second, first, threshold, second.len());
    if joins((t1, t2), first, second, threshold, first.len()) {
        let (a, b) = choose|a: int, b: int|
            0 <= a < first.len() && 0 <= b < second.len() && (t1, t2) == (
                #[trigger] first[a],
                #[trigger] second[b],
            ) && similar(first[a], second[b], threshold);
        lemma_similar_symmetric(first[a], second[b], threshold);
        assert(0 <= b < second.len() && 0 <= a < first.len() && (t2, t1) == (second[b], first[a]));
    }
    if joins((t2, t1), second, first, threshold, second.len()) {
        let (b, a) = choose|b: int, a: int|
            0 <= b < second.len() && 0 <= a < first.len() && (t2, t1) == (
                #[trigger] second[b],
                #[trigger] first[a],
            ) && similar(second[b], first[a], threshold);
        lemma_similar_symmetric(second[b], first[a], threshold);
        assert(0 <= a < first.len() && 0 <= b < second.len() && (t1, t2) == (first[a], second[b]));
    }
}

} // verus!
