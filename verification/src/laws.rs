use vstd::prelude::*;

use crate::events::{
    begin_count, begin_kind, cat_events, cat_offset, dims_ok, dims_pred, end_count, end_kind,
    fragment_ok, lemma_cat_fragment, lemma_cat_segment, lemma_single_fragment, lemma_wrap_fragment,
    run, well_nested, all_events, Dims, Event, Kind,
};
use crate::geometry_processor::{
    coord_event, coord_unit, coords_events, geom_events, line_events, line_unit, lines_events,
    ring_events, ring_unit, rings_events, subpoly_events, subpoly_unit, subpolys_events, CoordData,
    GeomData,
};

verus! {

proof fn lemma_coord_event_fragment(c: CoordData, dims: Dims, idx: int)
    ensures
        fragment_ok(seq![coord_event(c, dims, idx)], dims),
{
    let e = coord_event(c, dims, idx);
    if dims is Xy {
        assert(begin_kind(e) is None);
        assert(end_kind(e) is None);
        assert(dims_ok(e, dims));
    } else {
        assert(begin_kind(e) is None);
        assert(end_kind(e) is None);
        assert(dims_ok(e, dims));
    }
    lemma_single_fragment(e, dims);
}

proof fn lemma_coords_events_fragment(cs: Seq<CoordData>, dims: Dims)
    ensures
        fragment_ok(coords_events(cs, dims), dims),
{
    let u = coord_unit(cs, dims);
    assert forall|i: int| 0 <= i < cs.len() as int implies fragment_ok(#[trigger] u(i), dims) by {
        lemma_coord_event_fragment(cs[i], dims, i);
        assert(u(i) == seq![coord_event(cs[i], dims, i)]);
    }
    lemma_cat_fragment(cs.len() as int, u, dims);
}

proof fn lemma_ring_events_fragment(ring: Seq<CoordData>, dims: Dims, idx: int)
    ensures
        fragment_ok(ring_events(ring, dims, idx), dims),
{
    lemma_coords_events_fragment(ring, dims);
    lemma_wrap_fragment(
        Event::RingBegin { size: ring.len() as int, idx },
        coords_events(ring, dims),
        Event::RingEnd { idx },
        Kind::Ring,
        dims,
    );
}

proof fn lemma_rings_events_fragment(rs: Seq<Seq<CoordData>>, dims: Dims)
    ensures
        fragment_ok(rings_events(rs, dims), dims),
{
    let u = ring_unit(rs, dims);
    assert forall|i: int| 0 <= i < rs.len() as int implies fragment_ok(#[trigger] u(i), dims) by {
        lemma_ring_events_fragment(rs[i], dims, i);
    }
    lemma_cat_fragment(rs.len() as int, u, dims);
}

proof fn lemma_line_events_fragment(l: Seq<CoordData>, dims: Dims, idx: int)
    ensures
        fragment_ok(line_events(l, dims, idx), dims),
{
    lemma_coords_events_fragment(l, dims);
    lemma_wrap_fragment(
        Event::LineBegin { size: l.len() as int, idx },
        coords_events(l, dims),
        Event::LineEnd { idx },
        Kind::Line,
        dims,
    );
}

proof fn lemma_lines_events_fragment(ls: Seq<Seq<CoordData>>, dims: Dims)
    ensures
        fragment_ok(lines_events(ls, dims), dims),
{
    let u = line_unit(ls, dims);
    assert forall|i: int| 0 <= i < ls.len() as int implies fragment_ok(#[trigger] u(i), dims) by {
        lemma_line_events_fragment(ls[i], dims, i);
    }
    lemma_cat_fragment(ls.len() as int, u, dims);
}

proof fn lemma_subpoly_events_fragment(poly: Seq<Seq<CoordData>>, dims: Dims, idx: int)
    ensures
        fragment_ok(subpoly_events(poly, dims, idx), dims),
{
    lemma_rings_events_fragment(poly, dims);
    lemma_wrap_fragment(
        Event::SubpolyBegin { size: poly.len() as int, idx },
        rings_events(poly, dims),
        Event::SubpolyEnd { idx },
        Kind::SubPoly,
        dims,
    );
}

proof fn lemma_subpolys_events_fragment(ps: Seq<Seq<Seq<CoordData>>>, dims: Dims)
    ensures
        fragment_ok(subpolys_events(ps, dims), dims),
{
    let u = subpoly_unit(ps, dims);
    assert forall|i: int| 0 <= i < ps.len() as int implies fragment_ok(#[trigger] u(i), dims) by {
        lemma_subpoly_events_fragment(ps[i], dims, i);
    }
    lemma_cat_fragment(ps.len() as int, u, dims);
}

proof fn lemma_geom_events_fragment(g: GeomData, dims: Dims, idx: int)
    ensures
        fragment_ok(geom_events(g, dims, idx), dims),
{
    match g {
        GeomData::Point(c) => {
            lemma_coord_event_fragment(c, dims, 0);
            lemma_wrap_fragment(
                Event::PointBegin { idx },
                seq![coord_event(c, dims, 0)],
                Event::PointEnd { idx },
                Kind::Point,
                dims,
            );
            assert(geom_events(g, dims, idx) =~= seq![Event::PointBegin { idx }] + seq![
                coord_event(c, dims, 0),
            ] + seq![Event::PointEnd { idx }]);
        },
        GeomData::MultiPoint(cs) => {
            lemma_coords_events_fragment(cs, dims);
            lemma_wrap_fragment(
                Event::MultipointBegin { size: cs.len() as int, idx },
                coords_events(cs, dims),
                Event::MultipointEnd { idx },
                Kind::MultiPoint,
                dims,
            );
        },
        GeomData::LineString(cs) => {
            lemma_line_events_fragment(cs, dims, idx);
        },
        GeomData::MultiLineString(ls) => {
            lemma_lines_events_fragment(ls, dims);
            lemma_wrap_fragment(
                Event::MultilineBegin { size: ls.len() as int, idx },
                lines_events(ls, dims),
                Event::MultilineEnd { idx },
                Kind::MultiLine,
                dims,
            );
        },
        GeomData::Polygon(rs) => {
            lemma_rings_events_fragment(rs, dims);
            lemma_wrap_fragment(
                Event::PolyBegin { size: rs.len() as int, idx },
                rings_events(rs, dims),
                Event::PolyEnd { idx },
                Kind::Poly,
                dims,
            );
        },
        GeomData::MultiPolygon(ps) => {
            lemma_subpolys_events_fragment(ps, dims);
            lemma_wrap_fragment(
                Event::MultipolyBegin { size: ps.len() as int, idx },
                subpolys_events(ps, dims),
                Event::MultipolyEnd { idx },
                Kind::MultiPoly,
                dims,
            );
        },
    }
}

/// Begin/end pairing: in the event sequence of any geometry traversal, for
/// every scope kind the count of begin-callbacks equals the count of
/// end-callbacks, and the calls nest as a strict stack — run on an empty scope
/// stack, the nesting automaton never rejects and ends on an empty stack.
pub proof fn lemma_geom_events_nested(g: GeomData, dims: Dims, idx: int)
    ensures
        well_nested(geom_events(g, dims, idx)),
        forall|k: Kind| #[trigger] begin_count(geom_events(g, dims, idx), k) == end_count(
            geom_events(g, dims, idx),
            k,
        ),
{
    lemma_geom_events_fragment(g, dims, idx);
    assert(run(Some(Seq::<Kind>::empty()), geom_events(g, dims, idx)) == Some(
        Seq::<Kind>::empty(),
    ));
}

/// Dimensionality consistency: every coordinate callback of one traversal uses
/// the variant picked by the traversal's dimensionality flag, so no traversal
/// mixes 2D and 3D coordinate callbacks.
pub proof fn lemma_geom_events_dims(g: GeomData, dims: Dims, idx: int)
    ensures
        forall|i: int| 0 <= i < geom_events(g, dims, idx).len() ==> dims_ok(
            #[trigger] geom_events(g, dims, idx)[i],
            dims,
        ),
{
    lemma_geom_events_fragment(g, dims, idx);
    assert(all_events(geom_events(g, dims, idx), dims_pred(dims)));
    assert forall|i: int| 0 <= i < geom_events(g, dims, idx).len() implies dims_ok(
        #[trigger] geom_events(g, dims, idx)[i],
        dims,
    ) by {
        assert(dims_pred(dims)(geom_events(g, dims, idx)[i]));
    }
}

proof fn lemma_coord_cat_len(cs: Seq<CoordData>, dims: Dims, m: int)
    requires
        0 <= m <= cs.len(),
    ensures
        cat_events(m, coord_unit(cs, dims)).len() == m,
    decreases m,
{
    if m > 0 {
        lemma_coord_cat_len(cs, dims, m - 1);
        assert(coord_unit(cs, dims)(m - 1) == seq![coord_event(cs[m - 1], dims, m - 1)]);
    }
}

/// Sibling indices of a flat collection: a child list with n coordinates
/// issues exactly n coordinate callbacks, the i-th carrying index i — so the
/// index arguments run 0, 1, ..., n-1 in call order, no gaps, no repeats.
pub proof fn lemma_coords_events_indices(cs: Seq<CoordData>, dims: Dims)
    ensures
        coords_events(cs, dims).len() == cs.len(),
        forall|i: int| 0 <= i < cs.len() ==> #[trigger] coords_events(cs, dims)[i] == coord_event(
            cs[i],
            dims,
            i,
        ),
{
    let u = coord_unit(cs, dims);
    let n = cs.len() as int;
    lemma_coord_cat_len(cs, dims, n);
    assert forall|i: int| 0 <= i < n implies #[trigger] coords_events(cs, dims)[i] == coord_event(
        cs[i],
        dims,
        i,
    ) by {
        lemma_cat_segment(n, i, u);
        lemma_coord_cat_len(cs, dims, i);
        lemma_coord_cat_len(cs, dims, i + 1);
        assert(coords_events(cs, dims).subrange(i, i + 1) == u(i));
        assert(coords_events(cs, dims)[i] == coords_events(cs, dims).subrange(i, i + 1)[0]);
        assert(u(i)[0] == coord_event(cs[i], dims, i));
    }
}

/// Sibling indices of a polygon's rings: the rings' event segments stand in
/// call order, and the i-th segment opens with a ring begin carrying index i
/// and the ring's exact coordinate count.
pub proof fn lemma_rings_events_indices(rs: Seq<Seq<CoordData>>, dims: Dims)
    ensures
        forall|i: int| 0 <= i < rs.len() ==> rings_events(rs, dims).subrange(
            cat_offset(i, ring_unit(rs, dims)),
            cat_offset(i + 1, ring_unit(rs, dims)),
        ) == #[trigger] ring_events(rs[i], dims, i),
        forall|i: int| 0 <= i < rs.len() ==> #[trigger] ring_events(rs[i], dims, i)[0] == (
        Event::RingBegin { size: rs[i].len() as int, idx: i }),
{
    let u = ring_unit(rs, dims);
    let n = rs.len() as int;
    assert forall|i: int| 0 <= i < n implies rings_events(rs, dims).subrange(
        cat_offset(i, u),
        cat_offset(i + 1, u),
    ) == #[trigger] ring_events(rs[i], dims, i) by {
        lemma_cat_segment(n, i, u);
        assert(u(i) == ring_events(rs[i], dims, i));
    }
}

/// Sibling indices of a MultiLineString's member lines, as for rings.
pub proof fn lemma_lines_events_indices(ls: Seq<Seq<CoordData>>, dims: Dims)
    ensures
        forall|i: int| 0 <= i < ls.len() ==> lines_events(ls, dims).subrange(
            cat_offset(i, line_unit(ls, dims)),
            cat_offset(i + 1, line_unit(ls, dims)),
        ) == #[trigger] line_events(ls[i], dims, i),
        forall|i: int| 0 <= i < ls.len() ==> #[trigger] line_events(ls[i], dims, i)[0] == (
        Event::LineBegin { size: ls[i].len() as int, idx: i }),
{
    let u = line_unit(ls, dims);
    let n = ls.len() as int;
    assert forall|i: int| 0 <= i < n implies lines_events(ls, dims).subrange(
        cat_offset(i, u),
        cat_offset(i + 1, u),
    ) == #[trigger] line_events(ls[i], dims, i) by {
        lemma_cat_segment(n, i, u);
        assert(u(i) == line_events(ls[i], dims, i));
    }
}

/// Sibling indices of a MultiPolygon's polygons, as for rings.
pub proof fn lemma_subpolys_events_indices(ps: Seq<Seq<Seq<CoordData>>>, dims: Dims)
    ensures
        forall|i: int| 0 <= i < ps.len() ==> subpolys_events(ps, dims).subrange(
            cat_offset(i, subpoly_unit(ps, dims)),
            cat_offset(i + 1, subpoly_unit(ps, dims)),
        ) == #[trigger] subpoly_events(ps[i], dims, i),
        forall|i: int| 0 <= i < ps.len() ==> #[trigger] subpoly_events(ps[i], dims, i)[0] == (
        Event::SubpolyBegin { size: ps[i].len() as int, idx: i }),
{
    let u = subpoly_unit(ps, dims);
    let n = ps.len() as int;
    assert forall|i: int| 0 <= i < n implies subpolys_events(ps, dims).subrange(
        cat_offset(i, u),
        cat_offset(i + 1, u),
    ) == #[trigger] subpoly_events(ps[i], dims, i) by {
        lemma_cat_segment(n, i, u);
        assert(u(i) == subpoly_events(ps[i], dims, i));
    }
}

} // verus!
