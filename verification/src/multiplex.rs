use vstd::prelude::*;

use crate::error::GeomError;
use crate::events::Event;
use crate::geometry_reader::GeomReader;
use crate::geometry_reader::records;

verus! {

/// A composite consumer that owns two sub-consumers and relays every event to
/// both, in a fixed order: first `p1`, then `p2`. It satisfies the event
/// protocol itself, so a driver can see it as its sole consumer and muxes can
/// nest: three targets are `Multiplexer::new(a, Multiplexer::new(b, c))`.
pub struct Multiplexer<P1: GeomReader, P2: GeomReader> {
    /// The sub-consumer every event reaches first.
    pub p1: P1,
    /// The sub-consumer every event reaches second.
    pub p2: P2,
    /// The events this composite has fully fanned out, kept only for reasoning.
    pub log: Ghost<Seq<Event>>,
}

/// What one fan-out step guarantees. On success both sub-consumers received the
/// event, `p1` before `p2`, with its arguments unchanged. On failure the
/// multiplexer reports it at once and short-circuits: either `p1` refused the
/// event and `p2` was never invoked for it, or `p1` had accepted it and `p2`
/// refused it.
pub open spec fn fanout<P1: GeomReader, P2: GeomReader>(
    pre: Multiplexer<P1, P2>,
    post: Multiplexer<P1, P2>,
    e: Event,
    r: Result<(), GeomError>,
) -> bool {
    &&& r is Ok ==> post.p1.events() == pre.p1.events().push(e) && post.p2.events()
        == pre.p2.events().push(e)
    &&& r is Err ==> (post.p2 == pre.p2 && records(pre.p1.events(), post.p1.events(), e, false))
        || (post.p1.events() == pre.p1.events().push(e) && records(
        pre.p2.events(),
        post.p2.events(),
        e,
        false,
    ))
}

impl<P1: GeomReader, P2: GeomReader> Multiplexer<P1, P2> {
    pub fn new(p1: P1, p2: P2) -> (r: Multiplexer<P1, P2>)
        ensures
            r.p1 == p1,
            r.p2 == p2,
            r.events() == Seq::<Event>::empty(),
    {
        Multiplexer { p1, p2, log: Ghost(Seq::empty()) }
    }
}

impl<P1: GeomReader, P2: GeomReader> GeomReader for Multiplexer<P1, P2> {
    open spec fn events(&self) -> Seq<Event> {
        self.log@
    }

    fn pointxy(&mut self, x: &str, y: &str, idx: usize) -> (r: Result<(), GeomError>)
        ensures
            fanout(*old(self), *final(self), Event::Xy { x: x@, y: y@, idx: idx as int }, r),
    {
        match self.p1.pointxy(x, y, idx) {
            Ok(()) => {},
            Err(e) => {
                return Err(e);
            },
        }
        match self.p2.pointxy(x, y, idx) {
            Ok(()) => {},
            Err(e) => {
                return Err(e);
            },
        }
        self.log = Ghost(self.log@.push(Event::Xy { x: x@, y: y@, idx: idx as int }));
        Ok(())
    }

    fn pointxyz(&mut self, x: &str, y: &str, z: &str, idx: usize) -> (r: Result<(), GeomError>)
        ensures
            fanout(*old(self), *final(self), Event::Xyz { x: x@, y: y@, z: z@, idx: idx as int }, r),
    {
        match self.p1.pointxyz(x, y, z, idx) {
            Ok(()) => {},
            Err(e) => {
                return Err(e);
            },
        }
        match self.p2.pointxyz(x, y, z, idx) {
            Ok(()) => {},
            Err(e) => {
                return Err(e);
            },
        }
        self.log = Ghost(self.log@.push(Event::Xyz { x: x@, y: y@, z: z@, idx: idx as int }));
        Ok(())
    }

    fn point_begin(&mut self, idx: usize) -> (r: Result<(), GeomError>)
        ensures
            fanout(*old(self), *final(self), Event::PointBegin { idx: idx as int }, r),
    {
        match self.p1.point_begin(idx) {
            Ok(()) => {},
            Err(e) => {
                return Err(e);
            },
        }
        match self.p2.point_begin(idx) {
            Ok(()) => {},
            Err(e) => {
                return Err(e);
            },
        }
        self.log = Ghost(self.log@.push(Event::PointBegin { idx: idx as int }));
        Ok(())
    }

    fn point_end(&mut self, idx: usize) -> (r: Result<(), GeomError>)
        ensures
            fanout(*old(self), *final(self), Event::PointEnd { idx: idx as int }, r),
    {
        match self.p1.point_end(idx) {
            Ok(()) => {},
            Err(e) => {
                return Err(e);
            },
        }
        match self.p2.point_end(idx) {
            Ok(()) => {},
            Err(e) => {
                return Err(e);
            },
        }
        self.log = Ghost(self.log@.push(Event::PointEnd { idx: idx as int }));
        Ok(())
    }

    fn multipoint_begin(&mut self, size: usize, idx: usize) -> (r: Result<(), GeomError>)
        ensures
            fanout(*old(self), *final(self), Event::MultipointBegin { size: size as int, idx: idx as int }, r),
    {
        match self.p1.multipoint_begin(size, idx) {
            Ok(()) => {},
            Err(e) => {
                return Err(e);
            },
        }
        match self.p2.multipoint_begin(size, idx) {
            Ok(()) => {},
            Err(e) => {
                return Err(e);
            },
        }
        self.log = Ghost(self.log@.push(Event::MultipointBegin { size: size as int, idx: idx as int }));
        Ok(())
    }

    fn multipoint_end(&mut self, idx: usize) -> (r: Result<(), GeomError>)
        ensures
            fanout(*old(self), *final(self), Event::MultipointEnd { idx: idx as int }, r),
    {
        match self.p1.multipoint_end(idx) {
            Ok(()) => {},
            Err(e) => {
                return Err(e);
            },
        }
        match self.p2.multipoint_end(idx) {
            Ok(()) => {},
            Err(e) => {
                return Err(e);
            },
        }
        self.log = Ghost(self.log@.push(Event::MultipointEnd { idx: idx as int }));
        Ok(())
    }

    fn line_begin(&mut self, size: usize, idx: usize) -> (r: Result<(), GeomError>)
        ensures
            fanout(*old(self), *final(self), Event::LineBegin { size: size as int, idx: idx as int }, r),
    {
        match self.p1.line_begin(size, idx) {
            Ok(()) => {},
            Err(e) => {
                return Err(e);
            },
        }
        match self.p2.line_begin(size, idx) {
            Ok(()) => {},
            Err(e) => {
                return Err(e);
            },
        }
        self.log = Ghost(self.log@.push(Event::LineBegin { size: size as int, idx: idx as int }));
        Ok(())
    }

    fn line_end(&mut self, idx: usize) -> (r: Result<(), GeomError>)
        ensures
            fanout(*old(self), *final(self), Event::LineEnd { idx: idx as int }, r),
    {
        match self.p1.line_end(idx) {
            Ok(()) => {},
            Err(e) => {
                return Err(e);
            },
        }
        match self.p2.line_end(idx) {
            Ok(()) => {},
            Err(e) => {
                return Err(e);
            },
        }
        self.log = Ghost(self.log@.push(Event::LineEnd { idx: idx as int }));
        Ok(())
    }

    fn multiline_begin(&mut self, size: usize, idx: usize) -> (r: Result<(), GeomError>)
        ensures
            fanout(*old(self), *final(self), Event::MultilineBegin { size: size as int, idx: idx as int }, r),
    {
        match self.p1.multiline_begin(size, idx) {
            Ok(()) => {},
            Err(e) => {
                return Err(e);
            },
        }
        match self.p2.multiline_begin(size, idx) {
            Ok(()) => {},
            Err(e) => {
                return Err(e);
            },
        }
        self.log = Ghost(self.log@.push(Event::MultilineBegin { size: size as int, idx: idx as int }));
        Ok(())
    }

    fn multiline_end(&mut self, idx: usize) -> (r: Result<(), GeomError>)
        ensures
            fanout(*old(self), *final(self), Event::MultilineEnd { idx: idx as int }, r),
    {
        match self.p1.multiline_end(idx) {
            Ok(()) => {},
            Err(e) => {
                return Err(e);
            },
        }
        match self.p2.multiline_end(idx) {
            Ok(()) => {},
            Err(e) => {
                return Err(e);
            },
        }
        self.log = Ghost(self.log@.push(Event::MultilineEnd { idx: idx as int }));
        Ok(())
    }

    fn ring_begin(&mut self, size: usize, idx: usize) -> (r: Result<(), GeomError>)
        ensures
            fanout(*old(self), *final(self), Event::RingBegin { size: size as int, idx: idx as int }, r),
    {
        match self.p1.ring_begin(size, idx) {
            Ok(()) => {},
            Err(e) => {
                return Err(e);
            },
        }
        match self.p2.ring_begin(size, idx) {
            Ok(()) => {},
            Err(e) => {
                return Err(e);
            },
        }
        self.log = Ghost(self.log@.push(Event::RingBegin { size: size as int, idx: idx as int }));
        Ok(())
    }

    fn ring_end(&mut self, idx: usize) -> (r: Result<(), GeomError>)
        ensures
            fanout(*old(self), *final(self), Event::RingEnd { idx: idx as int }, r),
    {
        match self.p1.ring_end(idx) {
            Ok(()) => {},
            Err(e) => {
                return Err(e);
            },
        }
        match self.p2.ring_end(idx) {
            Ok(()) => {},
            Err(e) => {
                return Err(e);
            },
        }
        self.log = Ghost(self.log@.push(Event::RingEnd { idx: idx as int }));
        Ok(())
    }

    fn poly_begin(&mut self, size: usize, idx: usize) -> (r: Result<(), GeomError>)
        ensures
            fanout(*old(self), *final(self), Event::PolyBegin { size: size as int, idx: idx as int }, r),
    {
        match self.p1.poly_begin(size, idx) {
            Ok(()) => {},
            Err(e) => {
                return Err(e);
            },
        }
        match self.p2.poly_begin(size, idx) {
            Ok(()) => {},
            Err(e) => {
                return Err(e);
            },
        }
        self.log = Ghost(self.log@.push(Event::PolyBegin { size: size as int, idx: idx as int }));
        Ok(())
    }

    fn poly_end(&mut self, idx: usize) -> (r: Result<(), GeomError>)
        ensures
            fanout(*old(self), *final(self), Event::PolyEnd { idx: idx as int }, r),
    {
        match self.p1.poly_end(idx) {
            Ok(()) => {},
            Err(e) => {
                return Err(e);
            },
        }
        match self.p2.poly_end(idx) {
            Ok(()) => {},
            Err(e) => {
                return Err(e);
            },
        }
        self.log = Ghost(self.log@.push(Event::PolyEnd { idx: idx as int }));
        Ok(())
    }

    fn subpoly_begin(&mut self, size: usize, idx: usize) -> (r: Result<(), GeomError>)
        ensures
            fanout(*old(self), *final(self), Event::SubpolyBegin { size: size as int, idx: idx as int }, r),
    {
        match self.p1.subpoly_begin(size, idx) {
            Ok(()) => {},
            Err(e) => {
                return Err(e);
            },
        }
        match self.p2.subpoly_begin(size, idx) {
            Ok(()) => {},
            Err(e) => {
                return Err(e);
            },
        }
        self.log = Ghost(self.log@.push(Event::SubpolyBegin { size: size as int, idx: idx as int }));
        Ok(())
    }

    fn subpoly_end(&mut self, idx: usize) -> (r: Result<(), GeomError>)
        ensures
            fanout(*old(self), *final(self), Event::SubpolyEnd { idx: idx as int }, r),
    {
        match self.p1.subpoly_end(idx) {
            Ok(()) => {},
            Err(e) => {
                return Err(e);
            },
        }
        match self.p2.subpoly_end(idx) {
            Ok(()) => {},
            Err(e) => {
                return Err(e);
            },
        }
        self.log = Ghost(self.log@.push(Event::SubpolyEnd { idx: idx as int }));
        Ok(())
    }

    fn multipoly_begin(&mut self, size: usize, idx: usize) -> (r: Result<(), GeomError>)
        ensures
            fanout(*old(self), *final(self), Event::MultipolyBegin { size: size as int, idx: idx as int }, r),
    {
        match self.p1.multipoly_begin(size, idx) {
            Ok(()) => {},
            Err(e) => {
                return Err(e);
            },
        }
        match self.p2.multipoly_begin(size, idx) {
            Ok(()) => {},
            Err(e) => {
                return Err(e);
            },
        }
        self.log = Ghost(self.log@.push(Event::MultipolyBegin { size: size as int, idx: idx as int }));
        Ok(())
    }

    fn multipoly_end(&mut self, idx: usize) -> (r: Result<(), GeomError>)
        ensures
            fanout(*old(self), *final(self), Event::MultipolyEnd { idx: idx as int }, r),
    {
        match self.p1.multipoly_end(idx) {
            Ok(()) => {},
            Err(e) => {
                return Err(e);
            },
        }
        match self.p2.multipoly_end(idx) {
            Ok(()) => {},
            Err(e) => {
                return Err(e);
            },
        }
        self.log = Ghost(self.log@.push(Event::MultipolyEnd { idx: idx as int }));
        Ok(())
    }
}

} // verus!
