use vstd::prelude::*;

use crate::geometry::{convex_turn, is_convex_turn, Point2};

verus! {

/// A triangle as three indices into a boundary, as ideal integers.
pub type Tri = (int, int, int);

/// The position after `j` on a circle of `m` positions.
pub open spec fn succ(j: int, m: int) -> int {
    if j + 1 >= m {
        0
    } else {
        j + 1
    }
}

/// The position before `j` on a circle of `m` positions.
pub open spec fn pred(j: int, m: int) -> int {
    if j <= 0 {
        m - 1
    } else {
        j - 1
    }
}

/// For each vertex of a closed counter-clockwise boundary, whether its angle is convex.
/// Up to three vertices always form a convex shape.
pub open spec fn convexity(pts: Seq<Point2>) -> Seq<bool> {
    let n = pts.len() as int;
    Seq::new(
        pts.len(),
        |i: int| n <= 3 || is_convex_turn(pts[pred(i, n)], pts[i], pts[succ(i, n)]),
    )
}

/// The ear search over the vertices `keys` that remain, in increasing order, each with
/// its convexity in `conv`, starting at position `pos`, with `since` vertices visited
/// since the last ear. Three consecutive vertices `a, b, c` with `a` and `b` convex and
/// `c` not form an ear: the triangle `(a, b, c)` is cut off, `b` leaves, and `c` gets the
/// convexity of its new angle `a, c, d`. The search stops at three vertices left, or once
/// a whole round of the boundary found no ear. Gives the vertices left and the ears cut,
/// in order.
pub open spec fn ear_clip(
    pts: Seq<Point2>,
    keys: Seq<int>,
    conv: Seq<bool>,
    pos: int,
    since: int,
) -> (Seq<int>, Seq<Tri>)
    decreases keys.len(), pts.len() - since,
{
    let m = keys.len() as int;
    if m > 3 && since < pts.len() && 0 <= pos < m {
        let p1 = succ(pos, m);
        let p2 = succ(p1, m);
        let p3 = succ(p2, m);
        let a = keys[pos];
        let b = keys[p1];
        let c = keys[p2];
        let d = keys[p3];
        if conv[a] && conv[b] && !conv[c] {
            let rest = ear_clip(
                pts,
                keys.remove(p1),
                conv.update(c, is_convex_turn(pts[a], pts[c], pts[d])),
                if p1 == 0 {
                    pos - 1
                } else {
                    pos
                },
                1,
            );
            (rest.0, seq![(a, b, c)] + rest.1)
        } else {
            ear_clip(pts, keys, conv, p1, since + 1)
        }
    } else {
        (keys, seq![])
    }
}

/// The fan of triangles from the first of `keys` over each following pair.
pub open spec fn fan(keys: Seq<int>) -> Seq<Tri> {
    if keys.len() < 3 {
        seq![]
    } else {
        Seq::new((keys.len() - 2) as nat, |j: int| (keys[0], keys[j + 1], keys[j + 2]))
    }
}

/// The triangles that ear clipping cuts from a closed boundary of `pts`: the ears in
/// the order they were cut, then the fan over the vertices left.
pub open spec fn triangulation(pts: Seq<Point2>) -> Seq<Tri> {
    if pts.len() < 3 {
        seq![]
    } else {
        let r = ear_clip(pts, Seq::new(pts.len(), |j: int| j), convexity(pts), 0, 0);
        r.1 + fan(r.0)
    }
}

/// Index triples as ideal integers.
pub open spec fn tri_view(s: Seq<[usize; 3]>) -> Seq<Tri> {
    s.map_values(|t: [usize; 3]| (t[0] as int, t[1] as int, t[2] as int))
}

/// Three distinct indices below `n`.
pub open spec fn valid_tri(t: Tri, n: int) -> bool {
    &&& 0 <= t.0 < n
    &&& 0 <= t.1 < n
    &&& 0 <= t.2 < n
    &&& t.0 != t.1
    &&& t.1 != t.2
    &&& t.0 != t.2
}

/// Strictly increasing indices below `n`.
pub open spec fn ordered_keys(keys: Seq<int>, n: int) -> bool {
    &&& forall|i: int, j: int| 0 <= i < j < keys.len() ==> keys[i] < keys[j]
    &&& forall|i: int| 0 <= i < keys.len() ==> 0 <= #[trigger] keys[i] < n
}

/// Determine whether each angle is convex, assuming the points are in counter-clockwise
/// order.
pub fn each_is_convex(points: &[Point2]) -> (r: Vec<bool>)
    ensures
        r@ == convexity(points@),
{
    let n = points.len();
    let mut out: Vec<bool> = Vec::new();
    let mut i: usize = 0;
    while i < n
        invariant
            n == points@.len(),
            i <= n,
            out@ =~= convexity(points@).subrange(0, i as int),
        decreases n - i,
    {
        let c = if n <= 3 {
            true
        } else {
            let prev = if i == 0 {
                n - 1
            } else {
                i - 1
            };
            let next = if i + 1 >= n {
                0
            } else {
                i + 1
            };
            convex_turn(points[prev], points[i], points[next])
        };
        out.push(c);
        i = i + 1;
    }
    out
}

/// Create the triangles that cover the closed boundary `points` (counter-clockwise, the
/// first point not repeated at the end) by ear clipping; the polygon may be concave.
/// The vertices that remain are kept as a circular list of successor indices, so that
/// finding the next vertex and removing one are both constant time.
pub fn triangles_from_polygon(points: &[Point2]) -> (r: Vec<[usize; 3]>)
    ensures
        tri_view(r@) == triangulation(points@),
        points@.len() < 3 ==> r@.len() == 0,
        points@.len() >= 3 ==> r@.len() == points@.len() - 2,
        forall|t: int|
            0 <= t < r@.len() ==> valid_tri(#[trigger] tri_view(r@)[t], points@.len() as int),
{
    proof {
        lemma_triangulation_shape(points@);
    }
    let n = points.len();
    let mut triangles: Vec<[usize; 3]> = Vec::new();
    if n < 3 {
        proof {
            assert(tri_view(triangles@) =~= triangulation(points@));
        }
        return triangles;
    }
    // For each point in the polygon, find whether this angle is convex or concave, and
    // link the points in a circle.
    let mut is_convex = each_is_convex(points);
    let mut next: Vec<usize> = Vec::new();
    let mut k: usize = 0;
    while k < n
        invariant
            k <= n,
            next@.len() == k,
            forall|j: int| 0 <= j < k ==> next@[j] == succ(j, n as int),
        decreases n - k,
    {
        next.push(if k + 1 == n {
            0
        } else {
            k + 1
        });
        k = k + 1;
    }
    let ghost keys0 = Seq::new(n as nat, |j: int| j);
    let ghost keys = keys0;
    let ghost pos: int = 0;
    let ghost goal = ear_clip(points@, keys0, is_convex@, 0, 0);
    let mut len: usize = n;
    let mut cursor: usize = 0;
    let mut head: usize = 0;
    let mut since: usize = 0;
    proof {
        assert(tri_view(triangles@) =~= seq![]);
        assert(goal.1 =~= tri_view(triangles@) + goal.1);
    }
    while len > 3 && since < n
        invariant
            n == points@.len(),
            3 <= len <= n,
            next@.len() == n,
            is_convex@.len() == n,
            keys.len() == len,
            ordered_keys(keys, n as int),
            forall|j: int| 0 <= j < len ==> next@[#[trigger] keys[j]] == keys[succ(j, len as int)],
            0 <= pos < len,
            cursor == keys[pos],
            head == keys[0],
            since <= n,
            goal == ear_clip(points@, keys0, convexity(points@), 0, 0),
            goal.0 == ear_clip(points@, keys, is_convex@, pos, since as int).0,
            goal.1 == tri_view(triangles@) + ear_clip(points@, keys, is_convex@, pos, since as int).1,
        decreases len, n - since,
    {
        let ghost m = len as int;
        let ghost p1 = succ(pos, m);
        let ghost p2 = succ(p1, m);
        let ghost p3 = succ(p2, m);
        // Search for (convex, convex, non-convex) angles to indicate an ear: save the
        // triangle ABC, delete B, and recalculate the convexity of the angle ACD. The
        // search resumes at A, whose successor is now C.
        let a = cursor;
        let b = next[a];
        let c = next[b];
        let d = next[c];
        assert(b == keys[p1] && c == keys[p2] && d == keys[p3]);
        if is_convex[a] && is_convex[b] && !is_convex[c] {
            let ghost old_tris = tri_view(triangles@);
            let ghost nconv = is_convex@.update(c as int, is_convex_turn(points@[a as int], points@[c as int], points@[d as int]));
            let ghost npos = if p1 == 0 {
                pos - 1
            } else {
                pos
            };
            let ghost nkeys = keys.remove(p1);
            let ghost rest = ear_clip(points@, nkeys, nconv, npos, 1);
            let ghost old_next = next@;
            triangles.push([a, b, c]);
            next.set(a, c);
            let nc = convex_turn(points[a], points[c], points[d]);
            is_convex.set(c, nc);
            if b == head {
                head = c;
            }
            len = len - 1;
            since = 1;
            proof {
                lemma_remove_ordered(keys, n as int, p1);
                assert(tri_view(triangles@) =~= old_tris.push((a as int, b as int, c as int)));
                assert(goal.1 =~= tri_view(triangles@) + rest.1);
                lemma_unlink(keys, old_next, n as int, pos);
                assert(next@ == old_next.update(a as int, c));
                keys = nkeys;
                pos = npos;
            }
        } else {
            // Advance to the next point.
            cursor = b;
            since = since + 1;
            proof {
                pos = p1;
            }
        }
    }
    proof {
        assert(ear_clip(points@, keys, is_convex@, pos, since as int) == (keys, Seq::<Tri>::empty()));
        assert(goal.1 =~= tri_view(triangles@));
    }
    // The remaining points form a (near) convex polygon: fan it from the first point.
    push_fan(&next, head, len, Ghost(keys), &mut triangles);
    triangles
}

/// Appends the fan over the vertices `keys` that remain, linked in a circle by `next`.
fn push_fan(next: &Vec<usize>, head: usize, len: usize, keys: Ghost<Seq<int>>, triangles: &mut Vec<[usize; 3]>)
    requires
        3 <= len <= next@.len(),
        keys@.len() == len,
        ordered_keys(keys@, next@.len() as int),
        forall|i: int| 0 <= i < len ==> next@[#[trigger] keys@[i]] == keys@[succ(i, len as int)],
        head == keys@[0],
    ensures
        tri_view(final(triangles)@) == tri_view(old(triangles)@) + fan(keys@),
{
    let ghost ears = tri_view(triangles@);
    let ghost n = next@.len();
    let mut x = next[head];
    let mut j: usize = 1;
    proof {
        assert(tri_view(triangles@) =~= ears + fan(keys@).subrange(0, 0));
    }
    while j + 1 < len
        invariant
            3 <= len <= n,
            n == next@.len(),
            keys@.len() == len,
            ordered_keys(keys@, n as int),
            forall|i: int| 0 <= i < len ==> next@[#[trigger] keys@[i]] == keys@[succ(i, len as int)],
            head == keys@[0],
            1 <= j < len,
            x == keys@[j as int],
            tri_view(triangles@) == ears + fan(keys@).subrange(0, j - 1),
        decreases len - j,
    {
        let y = next[x];
        let ghost before = tri_view(triangles@);
        triangles.push([head, x, y]);
        proof {
            assert(tri_view(triangles@) =~= before.push((head as int, x as int, y as int)));
            assert(fan(keys@).subrange(0, j as int) =~= fan(keys@).subrange(0, j - 1).push(
                fan(keys@)[j - 1],
            ));
        }
        x = y;
        j = j + 1;
    }
    proof {
        assert(fan(keys@).subrange(0, len - 2) =~= fan(keys@));
    }
}

/// The three entries of `b` in cyclic order, starting at entry `k`.
pub open spec fn rotated(b: Seq<usize>, k: int) -> Seq<usize> {
    seq![b[k % 3], b[(k + 1) % 3], b[(k + 2) % 3]]
}

/// Determine whether two triangles are equal: the vertices must come in the same order,
/// but the array may be rotated.
pub fn triangles_equal(a: &[usize; 3], b: &[usize; 3]) -> (r: bool)
    ensures
        r == exists|k: int| 0 <= k < 3 && a@ == #[trigger] rotated(b@, k),
{
    let mut k: usize = 0;
    while k < 3
        invariant
            k <= 3,
            forall|j: int| 0 <= j < k ==> a@ != #[trigger] rotated(b@, j),
        decreases 3 - k,
    {
        if a[0] == b[k % 3] && a[1] == b[(k + 1) % 3] && a[2] == b[(k + 2) % 3] {
            assert(a@ =~= rotated(b@, k as int));
            return true;
        }
        assert(a@[0] != rotated(b@, k as int)[0] || a@[1] != rotated(b@, k as int)[1] || a@[2]
            != rotated(b@, k as int)[2]);
        k = k + 1;
    }
    false
}

/// The boundary of a closed ring: the ring without its last point where that point
/// repeats the first.
pub fn open_boundary(ring: &[Point2]) -> (r: Vec<Point2>)
    ensures
        r@ == (if ring@.len() >= 2 && ring@.last() == ring@[0] {
            ring@.drop_last()
        } else {
            ring@
        }),
{
    let mut n = ring.len();
    if n >= 2 && ring[n - 1] == ring[0] {
        n = n - 1;
    }
    let mut out: Vec<Point2> = Vec::new();
    let mut i: usize = 0;
    while i < n
        invariant
            n <= ring@.len(),
            i <= n,
            out@ =~= ring@.subrange(0, i as int),
        decreases n - i,
    {
        out.push(ring[i]);
        i = i + 1;
    }
    proof {
        if ring@.len() >= 2 && ring@.last() == ring@[0] {
            assert(out@ =~= ring@.drop_last());
        } else {
            assert(out@ =~= ring@);
        }
    }
    out
}

/// Unlinking the successor of position `pos` from a circular successor list.
proof fn lemma_unlink(keys: Seq<int>, next: Seq<usize>, n: int, pos: int)
    requires
        keys.len() > 3,
        ordered_keys(keys, n),
        next.len() == n,
        forall|j: int| 0 <= j < keys.len() ==> next[#[trigger] keys[j]] == keys[succ(j, keys.len() as int)],
        0 <= pos < keys.len(),
    ensures
        ({
            let m = keys.len() as int;
            let p1 = succ(pos, m);
            let nk = keys.remove(p1);
            let nn = next.update(keys[pos], keys[succ(p1, m)] as usize);
            forall|j: int| 0 <= j < m - 1 ==> nn[#[trigger] nk[j]] == nk[succ(j, m - 1)]
        }),
{
    let m = keys.len() as int;
    let p1 = succ(pos, m);
    let nk = keys.remove(p1);
    let nn = next.update(keys[pos], keys[succ(p1, m)] as usize);
    assert forall|j: int| 0 <= j < m - 1 implies nn[#[trigger] nk[j]] == nk[succ(j, m - 1)] by {
        let oj = if j < p1 {
            j
        } else {
            j + 1
        };
        assert(nk[j] == keys[oj]);
        if oj != pos {
            assert(keys[oj] != keys[pos]);
        }
    }
}

proof fn lemma_remove_ordered(keys: Seq<int>, n: int, p: int)
    requires
        ordered_keys(keys, n),
        0 <= p < keys.len(),
    ensures
        ordered_keys(keys.remove(p), n),
{
    let nk = keys.remove(p);
    assert forall|i: int, j: int| 0 <= i < j < nk.len() implies nk[i] < nk[j] by {
        let oi = if i < p {
            i
        } else {
            i + 1
        };
        let oj = if j < p {
            j
        } else {
            j + 1
        };
        assert(nk[i] == keys[oi] && nk[j] == keys[oj] && oi < oj);
    }
    assert forall|i: int| 0 <= i < nk.len() implies 0 <= #[trigger] nk[i] < n by {
        if i >= p {
            assert(nk[i] == keys[i + 1]);
        }
    }
}

proof fn lemma_ear_clip_shape(pts: Seq<Point2>, keys: Seq<int>, conv: Seq<bool>, pos: int, since: int)
    requires
        ordered_keys(keys, pts.len() as int),
        keys.len() >= 3,
    ensures
        ({
            let r = ear_clip(pts, keys, conv, pos, since);
            &&& ordered_keys(r.0, pts.len() as int)
            &&& r.0.len() >= 3
            &&& r.0.len() + r.1.len() == keys.len()
            &&& forall|t: int| 0 <= t < r.1.len() ==> valid_tri(#[trigger] r.1[t], pts.len() as int)
        }),
    decreases keys.len(), pts.len() - since,
{
    let n = pts.len() as int;
    let m = keys.len() as int;
    if m > 3 && since < pts.len() && 0 <= pos < m {
        let p1 = succ(pos, m);
        let p2 = succ(p1, m);
        let p3 = succ(p2, m);
        let a = keys[pos];
        let b = keys[p1];
        let c = keys[p2];
        let d = keys[p3];
        if conv[a] && conv[b] && !conv[c] {
            let npos = if p1 == 0 {
                pos - 1
            } else {
                pos
            };
            let nconv = conv.update(c, is_convex_turn(pts[a], pts[c], pts[d]));
            lemma_remove_ordered(keys, n, p1);
            lemma_ear_clip_shape(pts, keys.remove(p1), nconv, npos, 1);
            let rest = ear_clip(pts, keys.remove(p1), nconv, npos, 1);
            let r = ear_clip(pts, keys, conv, pos, since);
            assert(r.1 == seq![(a, b, c)] + rest.1);
            assert(valid_tri((a, b, c), n));
            assert forall|t: int| 0 <= t < r.1.len() implies valid_tri(#[trigger] r.1[t], n) by {
                if t > 0 {
                    assert(r.1[t] == rest.1[t - 1]);
                }
            }
        } else {
            lemma_ear_clip_shape(pts, keys, conv, p1, since + 1);
        }
    }
}

proof fn lemma_fan_shape(keys: Seq<int>, n: int)
    requires
        ordered_keys(keys, n),
        keys.len() >= 3,
    ensures
        fan(keys).len() == keys.len() - 2,
        forall|t: int| 0 <= t < fan(keys).len() ==> valid_tri(#[trigger] fan(keys)[t], n),
{
    assert forall|t: int| 0 <= t < fan(keys).len() implies valid_tri(#[trigger] fan(keys)[t], n) by {
        assert(keys[0] < keys[t + 1] < keys[t + 2]);
    }
}

/// Ear clipping cuts a boundary of `n >= 3` vertices into exactly `n - 2` triangles, each
/// of three distinct vertices of the boundary; fewer than three vertices give none.
pub proof fn lemma_triangulation_shape(pts: Seq<Point2>)
    ensures
        pts.len() < 3 ==> triangulation(pts).len() == 0,
        pts.len() >= 3 ==> triangulation(pts).len() == pts.len() - 2,
        forall|t: int|
            0 <= t < triangulation(pts).len() ==> valid_tri(
                #[trigger] triangulation(pts)[t],
                pts.len() as int,
            ),
{
    if pts.len() >= 3 {
        let n = pts.len() as int;
        let keys = Seq::new(pts.len(), |j: int| j);
        lemma_ear_clip_shape(pts, keys, convexity(pts), 0, 0);
        let r = ear_clip(pts, keys, convexity(pts), 0, 0);
        lemma_fan_shape(r.0, n);
        let all = r.1 + fan(r.0);
        assert forall|t: int| 0 <= t < all.len() implies valid_tri(#[trigger] all[t], n) by {
            if t >= r.1.len() {
                assert(all[t] == fan(r.0)[t - r.1.len()]);
            }
        }
    }
}

} // verus!
