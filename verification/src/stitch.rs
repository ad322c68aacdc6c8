//! Linking the unordered boundary segments of one level into maximal
//! polylines.
//!
//! Two segments join when they share an endpoint with exactly equal
//! coordinates — exact matching is sound because both cells adjoining a
//! shared edge interpolate the crossing point from the same corner values in
//! the same direction. Repeatedly, the lowest-indexed unvisited segment opens
//! a chain, which is extended forward from its tail and then backward from
//! its head, always absorbing the lowest-indexed unvisited segment incident
//! to the chain end, until no join exists or the chain closes into a cycle
//! (its first and last point coincide).
//!
//! Every segment is consumed exactly once: the multiset of undirected edges
//! across all output polylines equals the multiset of undirected input
//! segments — no omissions, no duplicates.

use vstd::prelude::*;
use vstd::multiset::Multiset;
use crate::math::{norm_pair, poly_edges, seg_edge, Point, Segment};

verus! {

/// The multiset of an edge sequence.
pub open spec fn pair_ms(e: Seq<(Point, Point)>) -> Multiset<(Point, Point)>
    decreases e.len(),
{
    if e.len() == 0 {
        Multiset::empty()
    } else {
        pair_ms(e.skip(1)).insert(e[0])
    }
}

/// The multiset of undirected edges of a point chain.
pub open spec fn chain_ms(p: Seq<Point>) -> Multiset<(Point, Point)> {
    pair_ms(poly_edges(p))
}

/// The multiset of undirected edges of a segment sequence.
pub open spec fn seg_edges_ms(segs: Seq<Segment>) -> Multiset<(Point, Point)>
    decreases segs.len(),
{
    if segs.len() == 0 {
        Multiset::empty()
    } else {
        seg_edges_ms(segs.drop_last()).insert(seg_edge(segs.last()))
    }
}

/// The multiset of undirected edges over all polylines.
pub open spec fn polys_ms(polys: Seq<Seq<Point>>) -> Multiset<(Point, Point)>
    decreases polys.len(),
{
    if polys.len() == 0 {
        Multiset::empty()
    } else {
        polys_ms(polys.drop_last()).add(chain_ms(polys.last()))
    }
}

/// The point sequences of a vector of polylines.
pub open spec fn polys_view(polys: Seq<Vec<Point>>) -> Seq<Seq<Point>> {
    polys.map_values(|v: Vec<Point>| v@)
}

/// The multiset of undirected edges of the segments marked visited among the
/// first `k`.
pub open spec fn visited_ms(segs: Seq<Segment>, vis: Seq<bool>, k: int) -> Multiset<(Point, Point)>
    decreases k,
{
    if k <= 0 {
        Multiset::empty()
    } else if vis[k - 1] {
        visited_ms(segs, vis, k - 1).insert(seg_edge(segs[k - 1]))
    } else {
        visited_ms(segs, vis, k - 1)
    }
}

/// How many of the first `k` segments are still unvisited.
pub open spec fn count_unvisited(vis: Seq<bool>, k: int) -> int
    decreases k,
{
    if k <= 0 {
        0
    } else {
        count_unvisited(vis, k - 1) + (if vis[k - 1] {
            0int
        } else {
            1int
        })
    }
}

/// Normalization forgets a pair's orientation.
pub proof fn lemma_norm_pair_symmetric(a: Point, b: Point)
    ensures
        norm_pair(a, b) == norm_pair(b, a),
{
}

/// Appending an edge sequence element on the right inserts it into the
/// multiset.
pub proof fn lemma_pair_ms_push(e: Seq<(Point, Point)>, x: (Point, Point))
    ensures
        pair_ms(e.push(x)) == pair_ms(e).insert(x),
    decreases e.len(),
{
    if e.len() == 0 {
        assert(e.push(x).skip(1) =~= Seq::<(Point, Point)>::empty());
        assert(e.push(x).len() == 1);
        assert(pair_ms(e.push(x)) == pair_ms(e.push(x).skip(1)).insert(e.push(x)[0]));
        assert(e.push(x)[0] == x);
        assert(pair_ms(e.push(x).skip(1)) == Multiset::<(Point, Point)>::empty());
        assert(pair_ms(e) == Multiset::<(Point, Point)>::empty());
        assert(pair_ms(e.push(x)) =~= pair_ms(e).insert(x));
    } else {
        assert(e.push(x).skip(1) =~= e.skip(1).push(x));
        lemma_pair_ms_push(e.skip(1), x);
        assert(pair_ms(e.push(x)) =~= pair_ms(e).insert(x));
    }
}

/// Extending a chain at its tail adds exactly the edge from the old tail.
pub proof fn lemma_poly_edges_push(p: Seq<Point>, q: Point)
    requires
        p.len() >= 2,
    ensures
        poly_edges(p.push(q)) == poly_edges(p).push(norm_pair(p.last(), q)),
    decreases p.len(),
{
    if p.len() == 2 {
        reveal_with_fuel(poly_edges, 4);
        assert(p.push(q).skip(1) =~= p.skip(1).push(q));
        assert(p.skip(1).push(q).skip(1) =~= seq![q]);
        assert(poly_edges(p.skip(1).push(q)) == seq![norm_pair(p[1], q)] + poly_edges(
            p.skip(1).push(q).skip(1),
        ));
        assert(poly_edges(seq![q]) =~= Seq::<(Point, Point)>::empty());
        assert(poly_edges(p.push(q)) =~= poly_edges(p).push(norm_pair(p.last(), q)));
    } else {
        assert(p.push(q).skip(1) =~= p.skip(1).push(q));
        lemma_poly_edges_push(p.skip(1), q);
        assert(p.skip(1).last() == p.last());
        assert(poly_edges(p.push(q)) == seq![norm_pair(p[0], p[1])] + poly_edges(
            p.skip(1),
        ).push(norm_pair(p.last(), q)));
        assert(poly_edges(p) == seq![norm_pair(p[0], p[1])] + poly_edges(p.skip(1)));
        assert(poly_edges(p.push(q)) =~= poly_edges(p).push(norm_pair(p.last(), q)));
    }
}

/// Extending a chain at its tail inserts exactly one undirected edge.
pub proof fn lemma_chain_ms_push(p: Seq<Point>, q: Point)
    requires
        p.len() >= 2,
    ensures
        chain_ms(p.push(q)) == chain_ms(p).insert(norm_pair(p.last(), q)),
{
    lemma_poly_edges_push(p, q);
    lemma_pair_ms_push(poly_edges(p), norm_pair(p.last(), q));
}

/// Extending a chain at its head inserts exactly one undirected edge.
pub proof fn lemma_chain_ms_front(p: Seq<Point>, q: Point)
    requires
        p.len() >= 1,
    ensures
        chain_ms(seq![q] + p) == chain_ms(p).insert(norm_pair(q, p[0])),
{
    let ext = seq![q] + p;
    assert(ext.skip(1) =~= p);
    assert(poly_edges(ext) =~= seq![norm_pair(q, p[0])] + poly_edges(p));
    let e = poly_edges(p);
    assert((seq![norm_pair(q, p[0])] + e).skip(1) =~= e);
    assert(pair_ms(seq![norm_pair(q, p[0])] + e) == pair_ms(e).insert(norm_pair(q, p[0])));
}

/// Marking one unvisited segment as visited inserts its edge into the
/// visited multiset.
pub proof fn lemma_visited_ms_set(segs: Seq<Segment>, vis: Seq<bool>, j: int, k: int)
    requires
        0 <= j < vis.len(),
        !vis[j],
        k <= vis.len(),
    ensures
        j < k ==> visited_ms(segs, vis.update(j, true), k) == visited_ms(segs, vis, k).insert(
            seg_edge(segs[j]),
        ),
        j >= k ==> visited_ms(segs, vis.update(j, true), k) == visited_ms(segs, vis, k),
    decreases k,
{
    if k > 0 {
        lemma_visited_ms_set(segs, vis, j, k - 1);
        if j < k {
            if j == k - 1 {
            } else {
                assert(visited_ms(segs, vis.update(j, true), k) =~= visited_ms(
                    segs,
                    vis,
                    k,
                ).insert(seg_edge(segs[j])));
            }
        }
    }
}

/// Marking one unvisited segment as visited lowers the unvisited count by
/// one; the count is never negative.
pub proof fn lemma_count_unvisited_set(vis: Seq<bool>, j: int, k: int)
    requires
        0 <= j < vis.len(),
        !vis[j],
        k <= vis.len(),
    ensures
        count_unvisited(vis, k) >= 0,
        j < k ==> count_unvisited(vis.update(j, true), k) == count_unvisited(vis, k) - 1,
        j >= k ==> count_unvisited(vis.update(j, true), k) == count_unvisited(vis, k),
        j < k ==> count_unvisited(vis, k) >= 1,
    decreases k,
{
    if k > 0 {
        lemma_count_unvisited_set(vis, j, k - 1);
    }
}

/// Once every segment is visited, the visited multiset is the whole input.
pub proof fn lemma_visited_ms_all(segs: Seq<Segment>, vis: Seq<bool>, k: int)
    requires
        0 <= k <= segs.len(),
        k <= vis.len(),
        forall|j: int| 0 <= j < k ==> vis[j],
    ensures
        visited_ms(segs, vis, k) == seg_edges_ms(segs.take(k)),
    decreases k,
{
    if k > 0 {
        lemma_visited_ms_all(segs, vis, k - 1);
        assert(segs.take(k).drop_last() =~= segs.take(k - 1));
        assert(segs.take(k).last() == segs[k - 1]);
        assert(vis[k - 1]);
        assert(visited_ms(segs, vis, k) == visited_ms(segs, vis, k - 1).insert(
            seg_edge(segs[k - 1]),
        ));
        assert(seg_edges_ms(segs.take(k)) == seg_edges_ms(segs.take(k).drop_last()).insert(
            seg_edge(segs.take(k).last()),
        ));
        assert(seg_edges_ms(segs.take(k).drop_last()) == seg_edges_ms(segs.take(k - 1)));
        assert(visited_ms(segs, vis, k) == seg_edges_ms(segs.take(k)));
    } else {
        assert(segs.take(0) =~= Seq::<Segment>::empty());
        assert(seg_edges_ms(segs.take(0)) == Multiset::<(Point, Point)>::empty());
    }
}



/// `p` is one of the segment's endpoints.
pub open spec fn incident(s: Segment, p: Point) -> bool {
    s.a == p || s.b == p
}

/// The unvisited count is never negative.
pub proof fn lemma_count_unvisited_nonneg(vis: Seq<bool>, k: int)
    ensures
        count_unvisited(vis, k) >= 0,
    decreases k,
{
    if k > 0 {
        lemma_count_unvisited_nonneg(vis, k - 1);
    }
}

/// While nothing is visited, the visited multiset is empty.
pub proof fn lemma_visited_ms_none(segs: Seq<Segment>, vis: Seq<bool>, k: int)
    requires
        forall|j: int| 0 <= j < k ==> !vis[j],
    ensures
        visited_ms(segs, vis, k) == Multiset::<(Point, Point)>::empty(),
    decreases k,
{
    if k > 0 {
        lemma_visited_ms_none(segs, vis, k - 1);
    }
}

/// A two-point chain covers exactly its one undirected edge.
pub proof fn lemma_chain_ms_pair(a: Point, b: Point)
    ensures
        poly_edges(seq![a, b]) == seq![norm_pair(a, b)],
        chain_ms(seq![a, b]) == Multiset::<(Point, Point)>::empty().insert(norm_pair(a, b)),
{
    assert(seq![a, b].skip(1) =~= seq![b]);
    assert(poly_edges(seq![b]) == Seq::<(Point, Point)>::empty());
    assert(poly_edges(seq![a, b]) =~= seq![norm_pair(a, b)]);
    assert(seq![norm_pair(a, b)].skip(1) =~= Seq::<(Point, Point)>::empty());
    assert(pair_ms(Seq::<(Point, Point)>::empty()) == Multiset::<(Point, Point)>::empty());
    assert(pair_ms(seq![norm_pair(a, b)]) == Multiset::<(Point, Point)>::empty().insert(
        norm_pair(a, b),
    ));
}


/// The total number of point-pair edges over a list of polylines.
pub open spec fn total_edge_count(polys: Seq<Seq<Point>>) -> int
    decreases polys.len(),
{
    if polys.len() == 0 {
        0
    } else {
        total_edge_count(polys.drop_last()) + poly_edges(polys.last()).len()
    }
}

/// A polyline of `k` points traces `k - 1` edges.
pub proof fn lemma_poly_edges_len(p: Seq<Point>)
    requires
        p.len() >= 1,
    ensures
        poly_edges(p).len() == p.len() - 1,
    decreases p.len(),
{
    if p.len() >= 2 {
        lemma_poly_edges_len(p.skip(1));
    }
}

proof fn lemma_pair_ms_len(e: Seq<(Point, Point)>)
    ensures
        pair_ms(e).len() == e.len(),
    decreases e.len(),
{
    broadcast use vstd::multiset::group_multiset_axioms;

    if e.len() > 0 {
        lemma_pair_ms_len(e.skip(1));
    }
}

proof fn lemma_seg_edges_ms_len(segs: Seq<Segment>)
    ensures
        seg_edges_ms(segs).len() == segs.len(),
    decreases segs.len(),
{
    broadcast use vstd::multiset::group_multiset_axioms;

    if segs.len() > 0 {
        lemma_seg_edges_ms_len(segs.drop_last());
    }
}

proof fn lemma_polys_ms_len(polys: Seq<Seq<Point>>)
    ensures
        polys_ms(polys).len() == total_edge_count(polys),
    decreases polys.len(),
{
    broadcast use vstd::multiset::group_multiset_axioms;

    if polys.len() > 0 {
        lemma_polys_ms_len(polys.drop_last());
        lemma_pair_ms_len(poly_edges(polys.last()));
    }
}

/// Law: stitching is a bijection on segments also by count — whenever the
/// undirected edge multisets agree (as `segments_to_polylines` ensures), the
/// total number of point-pair edges across all polylines equals the number
/// of input segments.
pub proof fn lemma_stitch_preserves_count(segments: Seq<Segment>, polys: Seq<Seq<Point>>)
    requires
        polys_ms(polys) == seg_edges_ms(segments),
    ensures
        total_edge_count(polys) == segments.len(),
{
    lemma_polys_ms_len(polys);
    lemma_seg_edges_ms_len(segments);
}

/// The lowest-indexed unvisited segment with `p` as an endpoint, or the
/// segment count when none exists.
fn find_unvisited_incident(segments: &Vec<Segment>, visited: &Vec<bool>, p: Point) -> (r: usize)
    requires
        visited@.len() == segments@.len(),
    ensures
        r <= segments@.len(),
        r < segments@.len() ==> !visited@[r as int] && incident(segments@[r as int], p),
        forall|j: int| 0 <= j < r ==> !(!visited@[j] && #[trigger] incident(segments@[j], p)),
{
    let mut j: usize = 0;
    while j < segments.len()
        invariant
            visited@.len() == segments@.len(),
            j <= segments@.len(),
            forall|i: int| 0 <= i < j ==> !(!visited@[i] && #[trigger] incident(segments@[i], p)),
        decreases segments@.len() - j,
    {
        if !visited[j] {
            let s = segments[j];
            if s.a == p || s.b == p {
                return j;
            }
        }
        j += 1;
    }
    j
}

impl Segment {
    /// Merge the unordered segment set of one level into maximal polylines.
    ///
    /// Repeatedly the lowest-indexed unvisited segment opens a chain of its
    /// two endpoints; the chain is then extended forward from its tail and
    /// backward from its head, each step absorbing the lowest-indexed
    /// unvisited segment that shares the chain's end point, until no join
    /// exists or the chain closes into a cycle (first point equal to the
    /// last). Isolated segments become two-point polylines. Every segment
    /// ends up in exactly one polyline: the multiset of undirected edges
    /// across the output equals the multiset of undirected input segments.
    pub fn segments_to_polylines(segments: Vec<Segment>) -> (polylines: Vec<Vec<Point>>)
        ensures
            polys_ms(polys_view(polylines@)) == seg_edges_ms(segments@),
            forall|i: int| 0 <= i < polylines@.len() ==> #[trigger] polylines@[i]@.len() >= 2,
    {
        let m = segments.len();
        let ghost segsv = segments@;
        let mut visited: Vec<bool> = Vec::new();
        while visited.len() < m
            invariant
                visited@.len() <= m,
                forall|j: int| 0 <= j < visited@.len() ==> !(#[trigger] visited@[j]),
            decreases m - visited@.len(),
        {
            visited.push(false);
        }
        let mut polylines: Vec<Vec<Point>> = Vec::new();
        proof {
            lemma_visited_ms_none(segsv, visited@, m as int);
            assert(polys_view(polylines@) =~= Seq::<Seq<Point>>::empty());
            assert(polys_ms(polys_view(polylines@)) == Multiset::<(Point, Point)>::empty());
        }
        let mut i: usize = 0;
        while i < m
            invariant
                segsv == segments@,
                segments@.len() == m,
                visited@.len() == m,
                i <= m,
                forall|j: int| 0 <= j < i ==> #[trigger] visited@[j],
                polys_ms(polys_view(polylines@)) == visited_ms(segments@, visited@, m as int),
                forall|k: int| 0 <= k < polylines@.len() ==> #[trigger] polylines@[k]@.len() >= 2,
            decreases m - i,
        {
            if !visited[i] {
                let seg = segments[i];
                proof {
                    lemma_visited_ms_set(segsv, visited@, i as int, m as int);
                    lemma_count_unvisited_set(visited@, i as int, m as int);
                }
                visited.set(i, true);
                let mut chain: Vec<Point> = Vec::new();
                chain.push(seg.a);
                chain.push(seg.b);
                proof {
                    assert(chain@ =~= seq![seg.a, seg.b]);
                    lemma_chain_ms_pair(seg.a, seg.b);
                    assert(chain_ms(chain@) == Multiset::<(Point, Point)>::empty().insert(
                        seg_edge(seg),
                    ));
                    assert(polys_ms(polys_view(polylines@)).add(chain_ms(chain@)) =~= visited_ms(
                        segments@,
                        visited@,
                        m as int,
                    ));
                }
                // extend forward from the tail until the chain closes or no
                // unvisited segment is incident
                let mut open = true;
                while open
                    invariant
                        segsv == segments@,
                        segments@.len() == m,
                        visited@.len() == m,
                        i < m,
                        forall|j: int| 0 <= j <= i ==> #[trigger] visited@[j],
                        chain@.len() >= 2,
                        polys_ms(polys_view(polylines@)).add(chain_ms(chain@)) == visited_ms(
                            segments@,
                            visited@,
                            m as int,
                        ),
                        forall|k: int| 0 <= k < polylines@.len() ==> #[trigger] polylines@[k]@.len() >= 2,
                    decreases count_unvisited(visited@, m as int) + (if open { 1int } else { 0int }),
                {
                    proof {
                        lemma_count_unvisited_nonneg(visited@, m as int);
                    }
                    let tail = chain[chain.len() - 1];
                    let head = chain[0];
                    if tail == head {
                        // the chain returned to its own start: a closed cycle
                        open = false;
                    } else {
                        let j = find_unvisited_incident(&segments, &visited, tail);
                        if j < m {
                            let s = segments[j];
                            let other = if s.a == tail {
                                s.b
                            } else {
                                s.a
                            };
                            proof {
                                lemma_visited_ms_set(segsv, visited@, j as int, m as int);
                                lemma_count_unvisited_set(visited@, j as int, m as int);
                                lemma_chain_ms_push(chain@, other);
                                lemma_norm_pair_symmetric(tail, other);
                                assert(norm_pair(chain@.last(), other) == seg_edge(s));
                            }
                            visited.set(j, true);
                            chain.push(other);
                        } else {
                            open = false;
                        }
                    }
                }
                // extend backward from the head in the same way
                let tail2 = chain[chain.len() - 1];
                let head2 = chain[0];
                if !(tail2 == head2) {
                    let mut open2 = true;
                    while open2
                        invariant
                            segsv == segments@,
                            segments@.len() == m,
                            visited@.len() == m,
                            i < m,
                            forall|j: int| 0 <= j <= i ==> #[trigger] visited@[j],
                            chain@.len() >= 2,
                            polys_ms(polys_view(polylines@)).add(chain_ms(chain@)) == visited_ms(
                                segments@,
                                visited@,
                                m as int,
                            ),
                            forall|k: int| 0 <= k < polylines@.len() ==> #[trigger] polylines@[k]@.len() >= 2,
                        decreases count_unvisited(visited@, m as int) + (if open2 { 1int } else { 0int }),
                    {
                        proof {
                            lemma_count_unvisited_nonneg(visited@, m as int);
                        }
                        let tail = chain[chain.len() - 1];
                        let head = chain[0];
                        if head == tail {
                            open2 = false;
                        } else {
                            let j = find_unvisited_incident(&segments, &visited, head);
                            if j < m {
                                let s = segments[j];
                                let other = if s.a == head {
                                    s.b
                                } else {
                                    s.a
                                };
                                let ghost chain_before = chain@;
                                proof {
                                    lemma_visited_ms_set(segsv, visited@, j as int, m as int);
                                    lemma_count_unvisited_set(visited@, j as int, m as int);
                                    lemma_chain_ms_front(chain_before, other);
                                    lemma_norm_pair_symmetric(other, head);
                                    assert(norm_pair(other, chain_before[0]) == seg_edge(s));
                                }
                                chain.insert(0, other);
                                visited.set(j, true);
                                proof {
                                    assert(chain@ =~= seq![other] + chain_before);
                                }
                            } else {
                                open2 = false;
                            }
                        }
                    }
                }
                let ghost polys_before = polylines@;
                polylines.push(chain);
                proof {
                    assert(polys_view(polylines@).drop_last() =~= polys_view(polys_before));
                    assert(polys_view(polylines@).last() == chain@);
                    assert(polys_ms(polys_view(polylines@)) == visited_ms(
                        segments@,
                        visited@,
                        m as int,
                    ));
                }
            }
            i += 1;
        }
        proof {
            lemma_visited_ms_all(segsv, visited@, m as int);
            assert(segsv.take(m as int) =~= segsv);
        }
        polylines
    }
}

} // verus!
