use vstd::prelude::*;

use crate::error::GeomError;
use crate::events::Event;

verus! {

/// How one callback may change a consumer's received-event record: on success
/// the event is appended; on failure the record either gained the event before
/// the consumer gave up or stands unchanged.
pub open spec fn records(pre: Seq<Event>, post: Seq<Event>, e: Event, ok: bool) -> bool {
    if ok {
        post == pre.push(e)
    } else {
        post == pre || post == pre.push(e)
    }
}

/// What a driver guarantees over a whole traversal fragment: on success the
/// full event sequence was delivered in order; on failure the consumer received
/// some prefix of it and nothing more.
pub open spec fn delivered(
    pre: Seq<Event>,
    post: Seq<Event>,
    full: Seq<Event>,
    r: Result<(), GeomError>,
) -> bool {
    &&& r is Ok ==> post == pre + full
    &&& r is Err ==> exists|k: int| 0 <= k <= full.len() && post == pre + #[trigger] full.take(k)
}

/// The event protocol: the capability interface every traversal driver calls
/// and every consumer implements. A driver issues begin/end pairs that nest as
/// a stack and hands every callback the 0-based index of the element among its
/// siblings; collection begins also carry the exact child count as a size hint.
/// Any callback may fail; the first failure aborts the traversal and no further
/// callbacks are issued for it. A consumer may implement only the operations
/// its target needs: every operation defaults to signalling the distinct
/// unsupported-kind failure rather than silently ignoring the event.
pub trait GeomReader: Sized {
    /// The events this consumer has received so far, oldest first.
    spec fn events(&self) -> Seq<Event>;

    /// A 2D coordinate, as the decimal text of its components.
    fn pointxy(&mut self, x: &str, y: &str, idx: usize) -> (r: Result<(), GeomError>)
        ensures
            records(
                old(self).events(),
                final(self).events(),
                Event::Xy { x: x@, y: y@, idx: idx as int },
                r is Ok,
            ),
    {
        Err(GeomError::Unsupported)
    }

    /// A 3D coordinate, as the decimal text of its components.
    fn pointxyz(&mut self, x: &str, y: &str, z: &str, idx: usize) -> (r: Result<(), GeomError>)
        ensures
            records(
                old(self).events(),
                final(self).events(),
                Event::Xyz { x: x@, y: y@, z: z@, idx: idx as int },
                r is Ok,
            ),
    {
        Err(GeomError::Unsupported)
    }

    /// Begin of a singleton Point geometry.
    fn point_begin(&mut self, idx: usize) -> (r: Result<(), GeomError>)
        ensures
            records(
                old(self).events(),
                final(self).events(),
                Event::PointBegin { idx: idx as int },
                r is Ok,
            ),
    {
        Err(GeomError::Unsupported)
    }

    /// End of a singleton Point geometry.
    fn point_end(&mut self, idx: usize) -> (r: Result<(), GeomError>)
        ensures
            records(
                old(self).events(),
                final(self).events(),
                Event::PointEnd { idx: idx as int },
                r is Ok,
            ),
    {
        Err(GeomError::Unsupported)
    }

    /// Begin of a MultiPoint with exactly `size` coordinates to follow.
    fn multipoint_begin(&mut self, size: usize, idx: usize) -> (r: Result<(), GeomError>)
        ensures
            records(
                old(self).events(),
                final(self).events(),
                Event::MultipointBegin { size: size as int, idx: idx as int },
                r is Ok,
            ),
    {
        Err(GeomError::Unsupported)
    }

    /// End of a MultiPoint.
    fn multipoint_end(&mut self, idx: usize) -> (r: Result<(), GeomError>)
        ensures
            records(
                old(self).events(),
                final(self).events(),
                Event::MultipointEnd { idx: idx as int },
                r is Ok,
            ),
    {
        Err(GeomError::Unsupported)
    }

    /// Begin of a LineString with exactly `size` coordinates to follow.
    fn line_begin(&mut self, size: usize, idx: usize) -> (r: Result<(), GeomError>)
        ensures
            records(
                old(self).events(),
                final(self).events(),
                Event::LineBegin { size: size as int, idx: idx as int },
                r is Ok,
            ),
    {
        Err(GeomError::Unsupported)
    }

    /// End of a LineString.
    fn line_end(&mut self, idx: usize) -> (r: Result<(), GeomError>)
        ensures
            records(
                old(self).events(),
                final(self).events(),
                Event::LineEnd { idx: idx as int },
                r is Ok,
            ),
    {
        Err(GeomError::Unsupported)
    }

    /// Begin of a MultiLineString with exactly `size` member lines to follow.
    fn multiline_begin(&mut self, size: usize, idx: usize) -> (r: Result<(), GeomError>)
        ensures
            records(
                old(self).events(),
                final(self).events(),
                Event::MultilineBegin { size: size as int, idx: idx as int },
                r is Ok,
            ),
    {
        Err(GeomError::Unsupported)
    }

    /// End of a MultiLineString.
    fn multiline_end(&mut self, idx: usize) -> (r: Result<(), GeomError>)
        ensures
            records(
                old(self).events(),
                final(self).events(),
                Event::MultilineEnd { idx: idx as int },
                r is Ok,
            ),
    {
        Err(GeomError::Unsupported)
    }

    /// Begin of a polygon ring with exactly `size` coordinates to follow.
    fn ring_begin(&mut self, size: usize, idx: usize) -> (r: Result<(), GeomError>)
        ensures
            records(
                old(self).events(),
                final(self).events(),
                Event::RingBegin { size: size as int, idx: idx as int },
                r is Ok,
            ),
    {
        Err(GeomError::Unsupported)
    }

    /// End of a polygon ring.
    fn ring_end(&mut self, idx: usize) -> (r: Result<(), GeomError>)
        ensures
            records(
                old(self).events(),
                final(self).events(),
                Event::RingEnd { idx: idx as int },
                r is Ok,
            ),
    {
        Err(GeomError::Unsupported)
    }

    /// Begin of a Polygon with exactly `size` rings to follow, exterior first.
    fn poly_begin(&mut self, size: usize, idx: usize) -> (r: Result<(), GeomError>)
        ensures
            records(
                old(self).events(),
                final(self).events(),
                Event::PolyBegin { size: size as int, idx: idx as int },
                r is Ok,
            ),
    {
        Err(GeomError::Unsupported)
    }

    /// End of a Polygon.
    fn poly_end(&mut self, idx: usize) -> (r: Result<(), GeomError>)
        ensures
            records(
                old(self).events(),
                final(self).events(),
                Event::PolyEnd { idx: idx as int },
                r is Ok,
            ),
    {
        Err(GeomError::Unsupported)
    }

    /// Begin of one polygon inside a MultiPolygon, with `size` rings to follow.
    fn subpoly_begin(&mut self, size: usize, idx: usize) -> (r: Result<(), GeomError>)
        ensures
            records(
                old(self).events(),
                final(self).events(),
                Event::SubpolyBegin { size: size as int, idx: idx as int },
                r is Ok,
            ),
    {
        Err(GeomError::Unsupported)
    }

    /// End of one polygon inside a MultiPolygon.
    fn subpoly_end(&mut self, idx: usize) -> (r: Result<(), GeomError>)
        ensures
            records(
                old(self).events(),
                final(self).events(),
                Event::SubpolyEnd { idx: idx as int },
                r is Ok,
            ),
    {
        Err(GeomError::Unsupported)
    }

    /// Begin of a MultiPolygon with exactly `size` polygons to follow.
    fn multipoly_begin(&mut self, size: usize, idx: usize) -> (r: Result<(), GeomError>)
        ensures
            records(
                old(self).events(),
                final(self).events(),
                Event::MultipolyBegin { size: size as int, idx: idx as int },
                r is Ok,
            ),
    {
        Err(GeomError::Unsupported)
    }

    /// End of a MultiPolygon.
    fn multipoly_end(&mut self, idx: usize) -> (r: Result<(), GeomError>)
        ensures
            records(
                old(self).events(),
                final(self).events(),
                Event::MultipolyEnd { idx: idx as int },
                r is Ok,
            ),
    {
        Err(GeomError::Unsupported)
    }
}

/// One recorded callback is the one-event case of prefix delivery.
pub proof fn lemma_records_delivered(
    pre: Seq<Event>,
    post: Seq<Event>,
    e: Event,
    r: Result<(), GeomError>,
)
    requires
        records(pre, post, e, r is Ok),
    ensures
        delivered(pre, post, seq![e], r),
{
    assert(pre + seq![e] =~= pre.push(e));
    if post == pre.push(e) {
        assert(pre + seq![e].take(1) =~= pre.push(e));
        assert(post == pre + seq![e].take(1));
    } else {
        assert(pre + seq![e].take(0) =~= pre);
        assert(post == pre + seq![e].take(0));
    }
}

/// Chaining: a fully delivered fragment followed by a (possibly partial)
/// fragment is a (possibly partial) delivery of their concatenation.
pub proof fn lemma_chain(
    e0: Seq<Event>,
    e1: Seq<Event>,
    e2: Seq<Event>,
    f1: Seq<Event>,
    f2: Seq<Event>,
    r: Result<(), GeomError>,
)
    requires
        e1 == e0 + f1,
        delivered(e1, e2, f2, r),
    ensures
        delivered(e0, e2, f1 + f2, r),
{
    if r is Ok {
        assert(e0 + (f1 + f2) =~= (e0 + f1) + f2);
    } else {
        let k = choose|k: int| 0 <= k <= f2.len() && e2 == e1 + #[trigger] f2.take(k);
        assert(e0 + (f1 + f2).take(f1.len() + k) =~= (e0 + f1) + f2.take(k));
        assert(e2 == e0 + (f1 + f2).take(f1.len() + k));
    }
}

/// Short-circuit: after a failed fragment, nothing of what would have followed
/// was delivered either.
pub proof fn lemma_stop(
    e0: Seq<Event>,
    e1: Seq<Event>,
    f1: Seq<Event>,
    f2: Seq<Event>,
    r: Result<(), GeomError>,
)
    requires
        r is Err,
        delivered(e0, e1, f1, r),
    ensures
        delivered(e0, e1, f1 + f2, r),
{
    let k = choose|k: int| 0 <= k <= f1.len() && e1 == e0 + #[trigger] f1.take(k);
    assert((f1 + f2).take(k) =~= f1.take(k));
    assert(e1 == e0 + (f1 + f2).take(k));
}

} // verus!
