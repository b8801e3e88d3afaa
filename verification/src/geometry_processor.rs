use vstd::prelude::*;

use crate::error::GeomError;
use crate::events::{cat_events, lemma_cat_prefix, Dims, Event};
use crate::geometry_reader::{
    delivered, lemma_chain, lemma_records_delivered, lemma_stop, GeomReader,
};

verus! {

/// One coordinate, each component held as the decimal text that coordinate
/// callbacks hand on. `z` is present exactly on 3D traversals.
pub struct Coordinate {
    pub x: String,
    pub y: String,
    pub z: Option<String>,
}

/// The mathematical value of a coordinate.
pub struct CoordData {
    pub x: Seq<char>,
    pub y: Seq<char>,
    pub z: Option<Seq<char>>,
}

impl View for Coordinate {
    type V = CoordData;

    open spec fn view(&self) -> CoordData {
        CoordData {
            x: self.x@,
            y: self.y@,
            z: match self.z {
                Some(z) => Some(z@),
                None => None,
            },
        }
    }
}

impl Coordinate {
    /// A 2D coordinate from the decimal text of its components.
    pub fn xy(x: &str, y: &str) -> (r: Coordinate)
        ensures
            r@ == (CoordData { x: x@, y: y@, z: None }),
    {
        Coordinate { x: x.to_owned(), y: y.to_owned(), z: None }
    }

    /// A 3D coordinate from the decimal text of its components.
    pub fn xyz(x: &str, y: &str, z: &str) -> (r: Coordinate)
        ensures
            r@ == (CoordData { x: x@, y: y@, z: Some(z@) }),
    {
        Coordinate { x: x.to_owned(), y: y.to_owned(), z: Some(z.to_owned()) }
    }
}

/// A source geometry a driver can traverse. The protocol itself never
/// materializes one; this stands for the source representation a driver owns.
pub enum Geometry {
    Point(Coordinate),
    MultiPoint(Vec<Coordinate>),
    LineString(Vec<Coordinate>),
    MultiLineString(Vec<Vec<Coordinate>>),
    Polygon(Vec<Vec<Coordinate>>),
    MultiPolygon(Vec<Vec<Vec<Coordinate>>>),
}

/// The mathematical value of a geometry.
pub enum GeomData {
    Point(CoordData),
    MultiPoint(Seq<CoordData>),
    LineString(Seq<CoordData>),
    MultiLineString(Seq<Seq<CoordData>>),
    Polygon(Seq<Seq<CoordData>>),
    MultiPolygon(Seq<Seq<Seq<CoordData>>>),
}

pub open spec fn coords_view(cs: Seq<Coordinate>) -> Seq<CoordData> {
    cs.map(|i: int, c: Coordinate| c@)
}

pub open spec fn rings_view(rs: Seq<Vec<Coordinate>>) -> Seq<Seq<CoordData>> {
    rs.map(|i: int, ring: Vec<Coordinate>| coords_view(ring@))
}

pub open spec fn polys_view(ps: Seq<Vec<Vec<Coordinate>>>) -> Seq<Seq<Seq<CoordData>>> {
    ps.map(|i: int, poly: Vec<Vec<Coordinate>>| rings_view(poly@))
}

impl View for Geometry {
    type V = GeomData;

    open spec fn view(&self) -> GeomData {
        match self {
            Geometry::Point(c) => GeomData::Point(c@),
            Geometry::MultiPoint(cs) => GeomData::MultiPoint(coords_view(cs@)),
            Geometry::LineString(cs) => GeomData::LineString(coords_view(cs@)),
            Geometry::MultiLineString(ls) => GeomData::MultiLineString(rings_view(ls@)),
            Geometry::Polygon(rs) => GeomData::Polygon(rings_view(rs@)),
            Geometry::MultiPolygon(ps) => GeomData::MultiPolygon(polys_view(ps@)),
        }
    }
}

/// A coordinate carries a Z component exactly on a 3D traversal.
pub open spec fn coord_wf(c: CoordData, dims: Dims) -> bool {
    c.z is Some <==> dims is Xyz
}

pub open spec fn coords_wf(cs: Seq<CoordData>, dims: Dims) -> bool {
    forall|i: int| 0 <= i < cs.len() ==> coord_wf(#[trigger] cs[i], dims)
}

pub open spec fn rings_wf(rs: Seq<Seq<CoordData>>, dims: Dims) -> bool {
    forall|i: int| 0 <= i < rs.len() ==> coords_wf(#[trigger] rs[i], dims)
}

pub open spec fn polys_wf(ps: Seq<Seq<Seq<CoordData>>>, dims: Dims) -> bool {
    forall|i: int| 0 <= i < ps.len() ==> rings_wf(#[trigger] ps[i], dims)
}

/// A geometry fits the dimensionality flag agreed for its traversal.
pub open spec fn geom_wf(g: GeomData, dims: Dims) -> bool {
    match g {
        GeomData::Point(c) => coord_wf(c, dims),
        GeomData::MultiPoint(cs) => coords_wf(cs, dims),
        GeomData::LineString(cs) => coords_wf(cs, dims),
        GeomData::MultiLineString(ls) => rings_wf(ls, dims),
        GeomData::Polygon(rs) => rings_wf(rs, dims),
        GeomData::MultiPolygon(ps) => polys_wf(ps, dims),
    }
}

/// The one coordinate callback of coordinate `c` at sibling position `idx`.
pub open spec fn coord_event(c: CoordData, dims: Dims, idx: int) -> Event {
    match dims {
        Dims::Xy => Event::Xy { x: c.x, y: c.y, idx },
        Dims::Xyz => Event::Xyz {
            x: c.x,
            y: c.y,
            z: match c.z {
                Some(z) => z,
                None => Seq::empty(),
            },
            idx,
        },
    }
}

pub open spec fn coord_unit(cs: Seq<CoordData>, dims: Dims) -> spec_fn(int) -> Seq<Event> {
    |i: int| seq![coord_event(cs[i], dims, i)]
}

/// The coordinate callbacks of a flat child list, at indices 0, 1, ....
pub open spec fn coords_events(cs: Seq<CoordData>, dims: Dims) -> Seq<Event> {
    cat_events(cs.len() as int, coord_unit(cs, dims))
}

/// The events of one ring standing at sibling position `idx`.
pub open spec fn ring_events(ring: Seq<CoordData>, dims: Dims, idx: int) -> Seq<Event> {
    seq![Event::RingBegin { size: ring.len() as int, idx }] + coords_events(ring, dims)
        + seq![Event::RingEnd { idx }]
}

pub open spec fn ring_unit(rs: Seq<Seq<CoordData>>, dims: Dims) -> spec_fn(int) -> Seq<Event> {
    |i: int| ring_events(rs[i], dims, i)
}

/// The events of a polygon's rings, at sibling positions 0, 1, ....
pub open spec fn rings_events(rs: Seq<Seq<CoordData>>, dims: Dims) -> Seq<Event> {
    cat_events(rs.len() as int, ring_unit(rs, dims))
}

/// The events of one member line standing at sibling position `idx`.
pub open spec fn line_events(l: Seq<CoordData>, dims: Dims, idx: int) -> Seq<Event> {
    seq![Event::LineBegin { size: l.len() as int, idx }] + coords_events(l, dims)
        + seq![Event::LineEnd { idx }]
}

pub open spec fn line_unit(ls: Seq<Seq<CoordData>>, dims: Dims) -> spec_fn(int) -> Seq<Event> {
    |i: int| line_events(ls[i], dims, i)
}

/// The events of a MultiLineString's member lines, at positions 0, 1, ....
pub open spec fn lines_events(ls: Seq<Seq<CoordData>>, dims: Dims) -> Seq<Event> {
    cat_events(ls.len() as int, line_unit(ls, dims))
}

/// The events of one polygon inside a MultiPolygon at position `idx`.
pub open spec fn subpoly_events(poly: Seq<Seq<CoordData>>, dims: Dims, idx: int) -> Seq<Event> {
    seq![Event::SubpolyBegin { size: poly.len() as int, idx }] + rings_events(poly, dims)
        + seq![Event::SubpolyEnd { idx }]
}

pub open spec fn subpoly_unit(ps: Seq<Seq<Seq<CoordData>>>, dims: Dims) -> spec_fn(
    int,
) -> Seq<Event> {
    |i: int| subpoly_events(ps[i], dims, i)
}

/// The events of a MultiPolygon's polygons, at positions 0, 1, ....
pub open spec fn subpolys_events(ps: Seq<Seq<Seq<CoordData>>>, dims: Dims) -> Seq<Event> {
    cat_events(ps.len() as int, subpoly_unit(ps, dims))
}

/// The exact event sequence a correct driver issues for geometry `g` standing
/// at sibling position `idx`, under dimensionality `dims`: a begin callback,
/// the children at indices 0, 1, ... with their own nesting, a matching end.
pub open spec fn geom_events(g: GeomData, dims: Dims, idx: int) -> Seq<Event> {
    match g {
        GeomData::Point(c) => seq![
            Event::PointBegin { idx },
            coord_event(c, dims, 0),
            Event::PointEnd { idx },
        ],
        GeomData::MultiPoint(cs) => seq![Event::MultipointBegin { size: cs.len() as int, idx }]
            + coords_events(cs, dims) + seq![Event::MultipointEnd { idx }],
        GeomData::LineString(cs) => line_events(cs, dims, idx),
        GeomData::MultiLineString(ls) => seq![
            Event::MultilineBegin { size: ls.len() as int, idx },
        ] + lines_events(ls, dims) + seq![Event::MultilineEnd { idx }],
        GeomData::Polygon(rs) => seq![Event::PolyBegin { size: rs.len() as int, idx }]
            + rings_events(rs, dims) + seq![Event::PolyEnd { idx }],
        GeomData::MultiPolygon(ps) => seq![Event::MultipolyBegin { size: ps.len() as int, idx }]
            + subpolys_events(ps, dims) + seq![Event::MultipolyEnd { idx }],
    }
}

/// A failed child delivery at slot `i` is a partial delivery of the whole
/// concatenation.
proof fn lemma_cat_fail(
    e0: Seq<Event>,
    e1: Seq<Event>,
    n: int,
    i: int,
    u: spec_fn(int) -> Seq<Event>,
    r: Result<(), GeomError>,
)
    requires
        r is Err,
        0 <= i < n,
        delivered(e0 + cat_events(i, u), e1, u(i), r),
    ensures
        delivered(e0, e1, cat_events(n, u), r),
{
    lemma_chain(e0, e0 + cat_events(i, u), e1, cat_events(i, u), u(i), r);
    assert(cat_events(i, u) + u(i) == cat_events(i + 1, u));
    lemma_cat_prefix(i + 1, n, u);
    let l = cat_events(i + 1, u).len() as int;
    assert(cat_events(n, u) =~= cat_events(i + 1, u) + cat_events(n, u).skip(l));
    lemma_stop(e0, e1, cat_events(i + 1, u), cat_events(n, u).skip(l), r);
    assert(cat_events(i + 1, u) + cat_events(n, u).skip(l) == cat_events(n, u));
}

/// One coordinate callback, through the variant the dimensionality flag picks.
fn emit_coord<P: GeomReader>(c: &Coordinate, dims: Dims, idx: usize, p: &mut P) -> (r: Result<
    (),
    GeomError,
>)
    requires
        coord_wf(c@, dims),
    ensures
        delivered(
            old(p).events(),
            final(p).events(),
            seq![coord_event(c@, dims, idx as int)],
            r,
        ),
{
    let ghost e0 = p.events();
    let ghost ev = coord_event(c@, dims, idx as int);
    let r = match dims {
        Dims::Xy => p.pointxy(c.x.as_str(), c.y.as_str(), idx),
        Dims::Xyz => match &c.z {
            Option::Some(z) => p.pointxyz(c.x.as_str(), c.y.as_str(), z.as_str(), idx),
            Option::None => {
                proof {
                    assert(false);
                }
                Err(GeomError::Violation)
            },
        },
    };
    proof {
        lemma_records_delivered(e0, p.events(), ev, r);
    }
    r
}

/// The coordinates of a flat child list, at sibling positions 0, 1, ....
fn process_coords<P: GeomReader>(parts: &Vec<Coordinate>, dims: Dims, p: &mut P) -> (r: Result<
    (),
    GeomError,
>)
    requires
        coords_wf(coords_view(parts@), dims),
    ensures
        delivered(old(p).events(), final(p).events(), coords_events(coords_view(parts@), dims), r),
{
    let ghost v = coords_view(parts@);
    let ghost u = coord_unit(v, dims);
    let ghost e0 = p.events();
    let n = parts.len();
    proof {
        assert(v.len() == n as int);
    }
    let mut i: usize = 0;
    while i < n
        invariant
            n == parts.len(),
            coords_wf(v, dims),
            v == coords_view(parts@),
            u == coord_unit(v, dims),
            i <= n,
            v.len() == n as int,
            e0 == old(p).events(),
            p.events() == e0 + cat_events(i as int, u),
        decreases n - i,
    {
        proof {
            assert(coord_wf(v[i as int], dims));
            assert(v[i as int] == parts@[i as int]@);
        }
        let rr = emit_coord(&parts[i], dims, i, p);
        proof {
            assert(u(i as int) == seq![coord_event(v[i as int], dims, i as int)]);
        }
        match rr {
            Ok(()) => {},
            Err(err) => {
                proof {
                    lemma_cat_fail(e0, p.events(), n as int, i as int, u, rr);
                }
                return Err(err);
            },
        }
        proof {
            assert(p.events() == e0 + cat_events(i as int + 1, u)) by {
                assert(e0 + cat_events(i as int + 1, u) =~= (e0 + cat_events(i as int, u)) + u(
                    i as int,
                ));
            }
        }
        i = i + 1;
    }
    proof {
        assert(cat_events(n as int, u) == coords_events(v, dims));
    }
    Ok(())
}

/// One ring of a polygon: ring begin, its coordinates, ring end.
fn process_ring<P: GeomReader>(part: &Vec<Coordinate>, dims: Dims, idx: usize, p: &mut P) -> (r: Result<
    (),
    GeomError,
>)
    requires
        coords_wf(coords_view(part@), dims),
    ensures
        delivered(
            old(p).events(),
            final(p).events(),
            ring_events(coords_view(part@), dims, idx as int),
            r,
        ),
{
    let ghost v = coords_view(part@);
    let ghost full = ring_events(v, dims, idx as int);
    let ghost evb = Event::RingBegin { size: part.len() as int, idx: idx as int };
    let ghost eve = Event::RingEnd { idx: idx as int };
    let ghost mid = coords_events(v, dims);
    let ghost e0 = p.events();
    proof {
        assert(full == seq![evb] + mid + seq![eve]);
    }
    let rb = p.ring_begin(part.len(), idx);
    proof {
        lemma_records_delivered(e0, p.events(), evb, rb);
    }
    match rb {
        Ok(()) => {},
        Err(err) => {
            proof {
                lemma_stop(e0, p.events(), seq![evb], mid + seq![eve], rb);
                assert(seq![evb] + (mid + seq![eve]) =~= full);
            }
            return Err(err);
        },
    }
    let ghost e1 = p.events();
    proof {
        assert(e1 =~= e0 + seq![evb]);
    }
    let rm = process_coords(part, dims, p);
    proof {
        lemma_chain(e0, e1, p.events(), seq![evb], mid, rm);
    }
    match rm {
        Ok(()) => {},
        Err(err) => {
            proof {
                lemma_stop(e0, p.events(), seq![evb] + mid, seq![eve], rm);
                assert((seq![evb] + mid) + seq![eve] =~= full);
            }
            return Err(err);
        },
    }
    let ghost e2 = p.events();
    proof {
        assert(e2 == e0 + (seq![evb] + mid)) by {
            assert(e0 + (seq![evb] + mid) =~= (e0 + seq![evb]) + mid);
        }
    }
    let re = p.ring_end(idx);
    proof {
        lemma_records_delivered(e2, p.events(), eve, re);
        lemma_chain(e0, e2, p.events(), seq![evb] + mid, seq![eve], re);
        assert((seq![evb] + mid) + seq![eve] =~= full);
    }
    re
}

/// One LineString: line begin, its coordinates, line end.
fn process_line<P: GeomReader>(part: &Vec<Coordinate>, dims: Dims, idx: usize, p: &mut P) -> (r: Result<
    (),
    GeomError,
>)
    requires
        coords_wf(coords_view(part@), dims),
    ensures
        delivered(
            old(p).events(),
            final(p).events(),
            line_events(coords_view(part@), dims, idx as int),
            r,
        ),
{
    let ghost v = coords_view(part@);
    let ghost full = line_events(v, dims, idx as int);
    let ghost evb = Event::LineBegin { size: part.len() as int, idx: idx as int };
    let ghost eve = Event::LineEnd { idx: idx as int };
    let ghost mid = coords_events(v, dims);
    let ghost e0 = p.events();
    proof {
        assert(full == seq![evb] + mid + seq![eve]);
    }
    let rb = p.line_begin(part.len(), idx);
    proof {
        lemma_records_delivered(e0, p.events(), evb, rb);
    }
    match rb {
        Ok(()) => {},
        Err(err) => {
            proof {
                lemma_stop(e0, p.events(), seq![evb], mid + seq![eve], rb);
                assert(seq![evb] + (mid + seq![eve]) =~= full);
            }
            return Err(err);
        },
    }
    let ghost e1 = p.events();
    proof {
        assert(e1 =~= e0 + seq![evb]);
    }
    let rm = process_coords(part, dims, p);
    proof {
        lemma_chain(e0, e1, p.events(), seq![evb], mid, rm);
    }
    match rm {
        Ok(()) => {},
        Err(err) => {
            proof {
                lemma_stop(e0, p.events(), seq![evb] + mid, seq![eve], rm);
                assert((seq![evb] + mid) + seq![eve] =~= full);
            }
            return Err(err);
        },
    }
    let ghost e2 = p.events();
    proof {
        assert(e2 == e0 + (seq![evb] + mid)) by {
            assert(e0 + (seq![evb] + mid) =~= (e0 + seq![evb]) + mid);
        }
    }
    let re = p.line_end(idx);
    proof {
        lemma_records_delivered(e2, p.events(), eve, re);
        lemma_chain(e0, e2, p.events(), seq![evb] + mid, seq![eve], re);
        assert((seq![evb] + mid) + seq![eve] =~= full);
    }
    re
}

/// One polygon inside a MultiPolygon: subpolygon begin, its rings, subpolygon end.
fn process_subpoly<P: GeomReader>(part: &Vec<Vec<Coordinate>>, dims: Dims, idx: usize, p: &mut P) -> (r: Result<
    (),
    GeomError,
>)
    requires
        rings_wf(rings_view(part@), dims),
    ensures
        delivered(
            old(p).events(),
            final(p).events(),
            subpoly_events(rings_view(part@), dims, idx as int),
            r,
        ),
{
    let ghost v = rings_view(part@);
    let ghost full = subpoly_events(v, dims, idx as int);
    let ghost evb = Event::SubpolyBegin { size: part.len() as int, idx: idx as int };
    let ghost eve = Event::SubpolyEnd { idx: idx as int };
    let ghost mid = rings_events(v, dims);
    let ghost e0 = p.events();
    proof {
        assert(full == seq![evb] + mid + seq![eve]);
    }
    let rb = p.subpoly_begin(part.len(), idx);
    proof {
        lemma_records_delivered(e0, p.events(), evb, rb);
    }
    match rb {
        Ok(()) => {},
        Err(err) => {
            proof {
                lemma_stop(e0, p.events(), seq![evb], mid + seq![eve], rb);
                assert(seq![evb] + (mid + seq![eve]) =~= full);
            }
            return Err(err);
        },
    }
    let ghost e1 = p.events();
    proof {
        assert(e1 =~= e0 + seq![evb]);
    }
    let rm = process_rings(part, dims, p);
    proof {
        lemma_chain(e0, e1, p.events(), seq![evb], mid, rm);
    }
    match rm {
        Ok(()) => {},
        Err(err) => {
            proof {
                lemma_stop(e0, p.events(), seq![evb] + mid, seq![eve], rm);
                assert((seq![evb] + mid) + seq![eve] =~= full);
            }
            return Err(err);
        },
    }
    let ghost e2 = p.events();
    proof {
        assert(e2 == e0 + (seq![evb] + mid)) by {
            assert(e0 + (seq![evb] + mid) =~= (e0 + seq![evb]) + mid);
        }
    }
    let re = p.subpoly_end(idx);
    proof {
        lemma_records_delivered(e2, p.events(), eve, re);
        lemma_chain(e0, e2, p.events(), seq![evb] + mid, seq![eve], re);
        assert((seq![evb] + mid) + seq![eve] =~= full);
    }
    re
}

/// All rings of one polygon, at sibling positions 0, 1, ....
fn process_rings<P: GeomReader>(parts: &Vec<Vec<Coordinate>>, dims: Dims, p: &mut P) -> (r: Result<(), GeomError>)
    requires
        rings_wf(rings_view(parts@), dims),
    ensures
        delivered(old(p).events(), final(p).events(), rings_events(rings_view(parts@), dims), r),
{
    let ghost v = rings_view(parts@);
    let ghost u = ring_unit(v, dims);
    let ghost e0 = p.events();
    let n = parts.len();
    proof {
        assert(v.len() == n as int);
    }
    let mut i: usize = 0;
    while i < n
        invariant
            n == parts.len(),
            rings_wf(v, dims),
            v == rings_view(parts@),
            u == ring_unit(v, dims),
            i <= n,
            v.len() == n as int,
            e0 == old(p).events(),
            p.events() == e0 + cat_events(i as int, u),
        decreases n - i,
    {
        let ghost epre = p.events();
        proof {
            assert(coords_wf(v[i as int], dims));
            assert(v[i as int] == coords_view(parts@[i as int]@));
        }
        let rr = process_ring(&parts[i], dims, i, p);
        proof {
            assert(u(i as int) == ring_events(v[i as int], dims, i as int));
        }
        match rr {
            Ok(()) => {},
            Err(err) => {
                proof {
                    lemma_cat_fail(e0, p.events(), n as int, i as int, u, rr);
                }
                return Err(err);
            },
        }
        proof {
            assert(p.events() == e0 + cat_events(i as int + 1, u)) by {
                assert(e0 + cat_events(i as int + 1, u) =~= (e0 + cat_events(i as int, u)) + u(
                    i as int,
                ));
            }
        }
        i = i + 1;
    }
    proof {
        assert(cat_events(n as int, u) == rings_events(v, dims));
    }
    Ok(())
}

/// All member lines of one MultiLineString, at sibling positions 0, 1, ....
fn process_lines<P: GeomReader>(parts: &Vec<Vec<Coordinate>>, dims: Dims, p: &mut P) -> (r: Result<(), GeomError>)
    requires
        rings_wf(rings_view(parts@), dims),
    ensures
        delivered(old(p).events(), final(p).events(), lines_events(rings_view(parts@), dims), r),
{
    let ghost v = rings_view(parts@);
    let ghost u = line_unit(v, dims);
    let ghost e0 = p.events();
    let n = parts.len();
    proof {
        assert(v.len() == n as int);
    }
    let mut i: usize = 0;
    while i < n
        invariant
            n == parts.len(),
            rings_wf(v, dims),
            v == rings_view(parts@),
            u == line_unit(v, dims),
            i <= n,
            v.len() == n as int,
            e0 == old(p).events(),
            p.events() == e0 + cat_events(i as int, u),
        decreases n - i,
    {
        let ghost epre = p.events();
        proof {
            assert(coords_wf(v[i as int], dims));
            assert(v[i as int] == coords_view(parts@[i as int]@));
        }
        let rr = process_line(&parts[i], dims, i, p);
        proof {
            assert(u(i as int) == line_events(v[i as int], dims, i as int));
        }
        match rr {
            Ok(()) => {},
            Err(err) => {
                proof {
                    lemma_cat_fail(e0, p.events(), n as int, i as int, u, rr);
                }
                return Err(err);
            },
        }
        proof {
            assert(p.events() == e0 + cat_events(i as int + 1, u)) by {
                assert(e0 + cat_events(i as int + 1, u) =~= (e0 + cat_events(i as int, u)) + u(
                    i as int,
                ));
            }
        }
        i = i + 1;
    }
    proof {
        assert(cat_events(n as int, u) == lines_events(v, dims));
    }
    Ok(())
}

/// All polygons of one MultiPolygon, at sibling positions 0, 1, ....
fn process_subpolys<P: GeomReader>(parts: &Vec<Vec<Vec<Coordinate>>>, dims: Dims, p: &mut P) -> (r: Result<(), GeomError>)
    requires
        polys_wf(polys_view(parts@), dims),
    ensures
        delivered(old(p).events(), final(p).events(), subpolys_events(polys_view(parts@), dims), r),
{
    let ghost v = polys_view(parts@);
    let ghost u = subpoly_unit(v, dims);
    let ghost e0 = p.events();
    let n = parts.len();
    proof {
        assert(v.len() == n as int);
    }
    let mut i: usize = 0;
    while i < n
        invariant
            n == parts.len(),
            polys_wf(v, dims),
            v == polys_view(parts@),
            u == subpoly_unit(v, dims),
            i <= n,
            v.len() == n as int,
            e0 == old(p).events(),
            p.events() == e0 + cat_events(i as int, u),
        decreases n - i,
    {
        let ghost epre = p.events();
        proof {
            assert(rings_wf(v[i as int], dims));
            assert(v[i as int] == rings_view(parts@[i as int]@));
        }
        let rr = process_subpoly(&parts[i], dims, i, p);
        proof {
            assert(u(i as int) == subpoly_events(v[i as int], dims, i as int));
        }
        match rr {
            Ok(()) => {},
            Err(err) => {
                proof {
                    lemma_cat_fail(e0, p.events(), n as int, i as int, u, rr);
                }
                return Err(err);
            },
        }
        proof {
            assert(p.events() == e0 + cat_events(i as int + 1, u)) by {
                assert(e0 + cat_events(i as int + 1, u) =~= (e0 + cat_events(i as int, u)) + u(
                    i as int,
                ));
            }
        }
        i = i + 1;
    }
    proof {
        assert(cat_events(n as int, u) == subpolys_events(v, dims));
    }
    Ok(())
}

/// Traverses a geometry once, replaying it as protocol callbacks on `p` in the
/// protocol's fixed nesting order, with sibling indices 0, 1, ... at every
/// level and exact child counts on every collection begin. On success the
/// consumer received exactly the geometry's event sequence; on the first
/// failure the traversal stops at once, the error is returned unchanged, and
/// the consumer received a prefix of that sequence and nothing more.
pub fn process_geom<P: GeomReader>(g: &Geometry, dims: Dims, p: &mut P) -> (r: Result<
    (),
    GeomError,
>)
    requires
        geom_wf(g@, dims),
    ensures
        delivered(old(p).events(), final(p).events(), geom_events(g@, dims, 0), r),
{
    match g {
        Geometry::Point(c) => {
            let ghost full = geom_events(g@, dims, 0);
            let ghost evb = Event::PointBegin { idx: 0 };
            let ghost evc = coord_event(c@, dims, 0);
            let ghost eve = Event::PointEnd { idx: 0 };
            let ghost e0 = p.events();
            proof {
                assert(full =~= seq![evb] + seq![evc] + seq![eve]);
            }
            let rb = p.point_begin(0);
            proof {
                lemma_records_delivered(e0, p.events(), evb, rb);
            }
            match rb {
                Ok(()) => {},
                Err(err) => {
                    proof {
                        lemma_stop(e0, p.events(), seq![evb], seq![evc] + seq![eve], rb);
                        assert(seq![evb] + (seq![evc] + seq![eve]) =~= full);
                    }
                    return Err(err);
                },
            }
            let ghost e1 = p.events();
            proof {
                assert(e1 =~= e0 + seq![evb]);
            }
            let rc = emit_coord(c, dims, 0, p);
            proof {
                lemma_chain(e0, e1, p.events(), seq![evb], seq![evc], rc);
            }
            match rc {
                Ok(()) => {},
                Err(err) => {
                    proof {
                        lemma_stop(e0, p.events(), seq![evb] + seq![evc], seq![eve], rc);
                        assert((seq![evb] + seq![evc]) + seq![eve] =~= full);
                    }
                    return Err(err);
                },
            }
            let ghost e2 = p.events();
            proof {
                assert(e2 == e0 + (seq![evb] + seq![evc])) by {
                    assert(e0 + (seq![evb] + seq![evc]) =~= (e0 + seq![evb]) + seq![evc]);
                }
            }
            let re = p.point_end(0);
            proof {
                lemma_records_delivered(e2, p.events(), eve, re);
                lemma_chain(e0, e2, p.events(), seq![evb] + seq![evc], seq![eve], re);
                assert((seq![evb] + seq![evc]) + seq![eve] =~= full);
            }
            re
        },
        Geometry::LineString(cs) => {
            proof {
                assert(geom_events(g@, dims, 0) == line_events(coords_view(cs@), dims, 0));
            }
            process_line(cs, dims, 0, p)
        },
        Geometry::MultiPoint(cs) => {
            let ghost v = coords_view(cs@);
            let ghost full = geom_events(g@, dims, 0);
            let ghost evb = Event::MultipointBegin { size: cs.len() as int, idx: 0 };
            let ghost eve = Event::MultipointEnd { idx: 0 };
            let ghost mid = coords_events(v, dims);
    let ghost e0 = p.events();
            proof {
                assert(full == seq![evb] + mid + seq![eve]);
            }
            let rb = p.multipoint_begin(cs.len(), 0);
            proof {
                lemma_records_delivered(e0, p.events(), evb, rb);
            }
            match rb {
                Ok(()) => {},
                Err(err) => {
                    proof {
                        lemma_stop(e0, p.events(), seq![evb], mid + seq![eve], rb);
                        assert(seq![evb] + (mid + seq![eve]) =~= full);
                    }
                    return Err(err);
                },
            }
            let ghost e1 = p.events();
            proof {
                assert(e1 =~= e0 + seq![evb]);
            }
            let rm = process_coords(cs, dims, p);
            proof {
                lemma_chain(e0, e1, p.events(), seq![evb], mid, rm);
            }
            match rm {
                Ok(()) => {},
                Err(err) => {
                    proof {
                        lemma_stop(e0, p.events(), seq![evb] + mid, seq![eve], rm);
                        assert((seq![evb] + mid) + seq![eve] =~= full);
                    }
                    return Err(err);
                },
            }
            let ghost e2 = p.events();
            proof {
                assert(e2 == e0 + (seq![evb] + mid)) by {
                    assert(e0 + (seq![evb] + mid) =~= (e0 + seq![evb]) + mid);
                }
            }
            let re = p.multipoint_end(0);
            proof {
                lemma_records_delivered(e2, p.events(), eve, re);
                lemma_chain(e0, e2, p.events(), seq![evb] + mid, seq![eve], re);
                assert((seq![evb] + mid) + seq![eve] =~= full);
            }
            re
        },
        Geometry::MultiLineString(ls) => {
            let ghost v = rings_view(ls@);
            let ghost full = geom_events(g@, dims, 0);
            let ghost evb = Event::MultilineBegin { size: ls.len() as int, idx: 0 };
            let ghost eve = Event::MultilineEnd { idx: 0 };
            let ghost mid = lines_events(v, dims);
    let ghost e0 = p.events();
            proof {
                assert(full == seq![evb] + mid + seq![eve]);
            }
            let rb = p.multiline_begin(ls.len(), 0);
            proof {
                lemma_records_delivered(e0, p.events(), evb, rb);
            }
            match rb {
                Ok(()) => {},
                Err(err) => {
                    proof {
                        lemma_stop(e0, p.events(), seq![evb], mid + seq![eve], rb);
                        assert(seq![evb] + (mid + seq![eve]) =~= full);
                    }
                    return Err(err);
                },
            }
            let ghost e1 = p.events();
            proof {
                assert(e1 =~= e0 + seq![evb]);
            }
            let rm = process_lines(ls, dims, p);
            proof {
                lemma_chain(e0, e1, p.events(), seq![evb], mid, rm);
            }
            match rm {
                Ok(()) => {},
                Err(err) => {
                    proof {
                        lemma_stop(e0, p.events(), seq![evb] + mid, seq![eve], rm);
                        assert((seq![evb] + mid) + seq![eve] =~= full);
                    }
                    return Err(err);
                },
            }
            let ghost e2 = p.events();
            proof {
                assert(e2 == e0 + (seq![evb] + mid)) by {
                    assert(e0 + (seq![evb] + mid) =~= (e0 + seq![evb]) + mid);
                }
            }
            let re = p.multiline_end(0);
            proof {
                lemma_records_delivered(e2, p.events(), eve, re);
                lemma_chain(e0, e2, p.events(), seq![evb] + mid, seq![eve], re);
                assert((seq![evb] + mid) + seq![eve] =~= full);
            }
            re
        },
        Geometry::Polygon(rs) => {
            let ghost v = rings_view(rs@);
            let ghost full = geom_events(g@, dims, 0);
            let ghost evb = Event::PolyBegin { size: rs.len() as int, idx: 0 };
            let ghost eve = Event::PolyEnd { idx: 0 };
            let ghost mid = rings_events(v, dims);
    let ghost e0 = p.events();
            proof {
                assert(full == seq![evb] + mid + seq![eve]);
            }
            let rb = p.poly_begin(rs.len(), 0);
            proof {
                lemma_records_delivered(e0, p.events(), evb, rb);
            }
            match rb {
                Ok(()) => {},
                Err(err) => {
                    proof {
                        lemma_stop(e0, p.events(), seq![evb], mid + seq![eve], rb);
                        assert(seq![evb] + (mid + seq![eve]) =~= full);
                    }
                    return Err(err);
                },
            }
            let ghost e1 = p.events();
            proof {
                assert(e1 =~= e0 + seq![evb]);
            }
            let rm = process_rings(rs, dims, p);
            proof {
                lemma_chain(e0, e1, p.events(), seq![evb], mid, rm);
            }
            match rm {
                Ok(()) => {},
                Err(err) => {
                    proof {
                        lemma_stop(e0, p.events(), seq![evb] + mid, seq![eve], rm);
                        assert((seq![evb] + mid) + seq![eve] =~= full);
                    }
                    return Err(err);
                },
            }
            let ghost e2 = p.events();
            proof {
                assert(e2 == e0 + (seq![evb] + mid)) by {
                    assert(e0 + (seq![evb] + mid) =~= (e0 + seq![evb]) + mid);
                }
            }
            let re = p.poly_end(0);
            proof {
                lemma_records_delivered(e2, p.events(), eve, re);
                lemma_chain(e0, e2, p.events(), seq![evb] + mid, seq![eve], re);
                assert((seq![evb] + mid) + seq![eve] =~= full);
            }
            re
        },
        Geometry::MultiPolygon(ps) => {
            let ghost v = polys_view(ps@);
            let ghost full = geom_events(g@, dims, 0);
            let ghost evb = Event::MultipolyBegin { size: ps.len() as int, idx: 0 };
            let ghost eve = Event::MultipolyEnd { idx: 0 };
            let ghost mid = subpolys_events(v, dims);
    let ghost e0 = p.events();
            proof {
                assert(full == seq![evb] + mid + seq![eve]);
            }
            let rb = p.multipoly_begin(ps.len(), 0);
            proof {
                lemma_records_delivered(e0, p.events(), evb, rb);
            }
            match rb {
                Ok(()) => {},
                Err(err) => {
                    proof {
                        lemma_stop(e0, p.events(), seq![evb], mid + seq![eve], rb);
                        assert(seq![evb] + (mid + seq![eve]) =~= full);
                    }
                    return Err(err);
                },
            }
            let ghost e1 = p.events();
            proof {
                assert(e1 =~= e0 + seq![evb]);
            }
            let rm = process_subpolys(ps, dims, p);
            proof {
                lemma_chain(e0, e1, p.events(), seq![evb], mid, rm);
            }
            match rm {
                Ok(()) => {},
                Err(err) => {
                    proof {
                        lemma_stop(e0, p.events(), seq![evb] + mid, seq![eve], rm);
                        assert((seq![evb] + mid) + seq![eve] =~= full);
                    }
                    return Err(err);
                },
            }
            let ghost e2 = p.events();
            proof {
                assert(e2 == e0 + (seq![evb] + mid)) by {
                    assert(e0 + (seq![evb] + mid) =~= (e0 + seq![evb]) + mid);
                }
            }
            let re = p.multipoly_end(0);
            proof {
                lemma_records_delivered(e2, p.events(), eve, re);
                lemma_chain(e0, e2, p.events(), seq![evb] + mid, seq![eve], re);
                assert((seq![evb] + mid) + seq![eve] =~= full);
            }
            re
        },
    }
}

} // verus!
