//! Zero-copy streaming of geospatial geometries: a verified event protocol.
//!
//! A traversal driver walks a source geometry once and replays it as ordered
//! callbacks on a consumer; the consumer renders a target encoding on the fly,
//! so no intermediate geometry tree is ever built. The crate holds the
//! protocol itself ([`GeomReader`]), a no-op terminal consumer
//! ([`ProcessorSink`]), a failing consumer to exercise abort paths
//! ([`LimitedSink`]), a fan-out combinator ([`Multiplexer`]), a reference text
//! emitter ([`GeoJsonEmitter`]), and a verified driver ([`process_geom`]),
//! together with proofs of the protocol's nesting, indexing, dimensionality
//! and idempotence guarantees.

use vstd::prelude::*;

pub mod error;
pub mod events;
pub mod geojson;
pub mod geometry_processor;
pub mod geometry_reader;
pub mod laws;
pub mod multiplex;

pub use crate::error::GeomError;
pub use crate::events::{Dims, Event, Kind};
pub use crate::geojson::GeoJsonEmitter;
pub use crate::geometry_processor::{Coordinate, Geometry, process_geom};
pub use crate::geometry_reader::GeomReader;
pub use crate::multiplex::Multiplexer;

verus! {

/// Empty processor implementation: a terminal consumer that accepts every
/// event and does nothing with it. It validates that a driver is structurally
/// correct independent of any real encoding, and measures traversal cost free
/// of emission cost.
pub struct ProcessorSink {
    /// The events received so far, kept only for reasoning.
    pub log: Ghost<Seq<Event>>,
}

impl ProcessorSink {
    pub fn new() -> (r: ProcessorSink)
        ensures
            r.events() == Seq::<Event>::empty(),
    {
        ProcessorSink { log: Ghost(Seq::empty()) }
    }

    fn record(&mut self, ev: Ghost<Event>)
        ensures
            final(self).events() == old(self).events().push(ev@),
    {
        self.log = Ghost(self.log@.push(ev@));
    }
}

impl GeomReader for ProcessorSink {
    open spec fn events(&self) -> Seq<Event> {
        self.log@
    }

    fn pointxy(&mut self, x: &str, y: &str, idx: usize) -> (r: Result<(), GeomError>)
        ensures
            r is Ok,
    {
        self.record(Ghost(Event::Xy { x: x@, y: y@, idx: idx as int }));
        Ok(())
    }

    fn pointxyz(&mut self, x: &str, y: &str, z: &str, idx: usize) -> (r: Result<(), GeomError>)
        ensures
            r is Ok,
    {
        self.record(Ghost(Event::Xyz { x: x@, y: y@, z: z@, idx: idx as int }));
        Ok(())
    }

    fn point_begin(&mut self, idx: usize) -> (r: Result<(), GeomError>)
        ensures
            r is Ok,
    {
        self.record(Ghost(Event::PointBegin { idx: idx as int }));
        Ok(())
    }

    fn point_end(&mut self, idx: usize) -> (r: Result<(), GeomError>)
        ensures
            r is Ok,
    {
        self.record(Ghost(Event::PointEnd { idx: idx as int }));
        Ok(())
    }

    fn multipoint_begin(&mut self, size: usize, idx: usize) -> (r: Result<(), GeomError>)
        ensures
            r is Ok,
    {
        self.record(Ghost(Event::MultipointBegin { size: size as int, idx: idx as int }));
        Ok(())
    }

    fn multipoint_end(&mut self, idx: usize) -> (r: Result<(), GeomError>)
        ensures
            r is Ok,
    {
        self.record(Ghost(Event::MultipointEnd { idx: idx as int }));
        Ok(())
    }

    fn line_begin(&mut self, size: usize, idx: usize) -> (r: Result<(), GeomError>)
        ensures
            r is Ok,
    {
        self.record(Ghost(Event::LineBegin { size: size as int, idx: idx as int }));
        Ok(())
    }

    fn line_end(&mut self, idx: usize) -> (r: Result<(), GeomError>)
        ensures
            r is Ok,
    {
        self.record(Ghost(Event::LineEnd { idx: idx as int }));
        Ok(())
    }

    fn multiline_begin(&mut self, size: usize, idx: usize) -> (r: Result<(), GeomError>)
        ensures
            r is Ok,
    {
        self.record(Ghost(Event::MultilineBegin { size: size as int, idx: idx as int }));
        Ok(())
    }

    fn multiline_end(&mut self, idx: usize) -> (r: Result<(), GeomError>)
        ensures
            r is Ok,
    {
        self.record(Ghost(Event::MultilineEnd { idx: idx as int }));
        Ok(())
    }

    fn ring_begin(&mut self, size: usize, idx: usize) -> (r: Result<(), GeomError>)
        ensures
            r is Ok,
    {
        self.record(Ghost(Event::RingBegin { size: size as int, idx: idx as int }));
        Ok(())
    }

    fn ring_end(&mut self, idx: usize) -> (r: Result<(), GeomError>)
        ensures
            r is Ok,
    {
        self.record(Ghost(Event::RingEnd { idx: idx as int }));
        Ok(())
    }

    fn poly_begin(&mut self, size: usize, idx: usize) -> (r: Result<(), GeomError>)
        ensures
            r is Ok,
    {
        self.record(Ghost(Event::PolyBegin { size: size as int, idx: idx as int }));
        Ok(())
    }

    fn poly_end(&mut self, idx: usize) -> (r: Result<(), GeomError>)
        ensures
            r is Ok,
    {
        self.record(Ghost(Event::PolyEnd { idx: idx as int }));
        Ok(())
    }

    fn subpoly_begin(&mut self, size: usize, idx: usize) -> (r: Result<(), GeomError>)
        ensures
            r is Ok,
    {
        self.record(Ghost(Event::SubpolyBegin { size: size as int, idx: idx as int }));
        Ok(())
    }

    fn subpoly_end(&mut self, idx: usize) -> (r: Result<(), GeomError>)
        ensures
            r is Ok,
    {
        self.record(Ghost(Event::SubpolyEnd { idx: idx as int }));
        Ok(())
    }

    fn multipoly_begin(&mut self, size: usize, idx: usize) -> (r: Result<(), GeomError>)
        ensures
            r is Ok,
    {
        self.record(Ghost(Event::MultipolyBegin { size: size as int, idx: idx as int }));
        Ok(())
    }

    fn multipoly_end(&mut self, idx: usize) -> (r: Result<(), GeomError>)
        ensures
            r is Ok,
    {
        self.record(Ghost(Event::MultipolyEnd { idx: idx as int }));
        Ok(())
    }
}

/// A consumer that accepts a fixed number of events and then fails every
/// further callback: a consumer aborting early returns an error on its next
/// callback, and the driver treats that exactly as any other failure. Useful to
/// validate that drivers and composite consumers stop at the first failure.
pub struct LimitedSink {
    /// How many more events will be accepted before every callback fails.
    pub remaining: usize,
    /// The events received so far, kept only for reasoning.
    pub log: Ghost<Seq<Event>>,
}

impl LimitedSink {
    pub fn new(limit: usize) -> (r: LimitedSink)
        ensures
            r.remaining == limit,
            r.events() == Seq::<Event>::empty(),
    {
        LimitedSink { remaining: limit, log: Ghost(Seq::empty()) }
    }

    fn accept(&mut self, ev: Ghost<Event>) -> (r: Result<(), GeomError>)
        ensures
            r is Ok <==> old(self).remaining > 0,
            r is Ok ==> final(self).remaining == old(self).remaining - 1
                && final(self).events() == old(self).events().push(ev@),
            r is Err ==> final(self).remaining == old(self).remaining && final(self).events()
                == old(self).events(),
    {
        if self.remaining > 0 {
            self.remaining = self.remaining - 1;
            self.log = Ghost(self.log@.push(ev@));
            Ok(())
        } else {
            Err(GeomError::Encoding)
        }
    }
}

impl GeomReader for LimitedSink {
    open spec fn events(&self) -> Seq<Event> {
        self.log@
    }

    fn pointxy(&mut self, x: &str, y: &str, idx: usize) -> (r: Result<(), GeomError>)
        ensures
            r is Ok <==> old(self).remaining > 0,
            r is Ok ==> final(self).remaining == old(self).remaining - 1,
            r is Err ==> final(self).remaining == old(self).remaining && final(self).events()
                == old(self).events(),
    {
        self.accept(Ghost(Event::Xy { x: x@, y: y@, idx: idx as int }))
    }

    fn pointxyz(&mut self, x: &str, y: &str, z: &str, idx: usize) -> (r: Result<(), GeomError>)
        ensures
            r is Ok <==> old(self).remaining > 0,
            r is Ok ==> final(self).remaining == old(self).remaining - 1,
            r is Err ==> final(self).remaining == old(self).remaining && final(self).events()
                == old(self).events(),
    {
        self.accept(Ghost(Event::Xyz { x: x@, y: y@, z: z@, idx: idx as int }))
    }

    fn point_begin(&mut self, idx: usize) -> (r: Result<(), GeomError>)
        ensures
            r is Ok <==> old(self).remaining > 0,
            r is Ok ==> final(self).remaining == old(self).remaining - 1,
            r is Err ==> final(self).remaining == old(self).remaining && final(self).events()
                == old(self).events(),
    {
        self.accept(Ghost(Event::PointBegin { idx: idx as int }))
    }

    fn point_end(&mut self, idx: usize) -> (r: Result<(), GeomError>)
        ensures
            r is Ok <==> old(self).remaining > 0,
            r is Ok ==> final(self).remaining == old(self).remaining - 1,
            r is Err ==> final(self).remaining == old(self).remaining && final(self).events()
                == old(self).events(),
    {
        self.accept(Ghost(Event::PointEnd { idx: idx as int }))
    }

    fn multipoint_begin(&mut self, size: usize, idx: usize) -> (r: Result<(), GeomError>)
        ensures
            r is Ok <==> old(self).remaining > 0,
            r is Ok ==> final(self).remaining == old(self).remaining - 1,
            r is Err ==> final(self).remaining == old(self).remaining && final(self).events()
                == old(self).events(),
    {
        self.accept(Ghost(Event::MultipointBegin { size: size as int, idx: idx as int }))
    }

    fn multipoint_end(&mut self, idx: usize) -> (r: Result<(), GeomError>)
        ensures
            r is Ok <==> old(self).remaining > 0,
            r is Ok ==> final(self).remaining == old(self).remaining - 1,
            r is Err ==> final(self).remaining == old(self).remaining && final(self).events()
                == old(self).events(),
    {
        self.accept(Ghost(Event::MultipointEnd { idx: idx as int }))
    }

    fn line_begin(&mut self, size: usize, idx: usize) -> (r: Result<(), GeomError>)
        ensures
            r is Ok <==> old(self).remaining > 0,
            r is Ok ==> final(self).remaining == old(self).remaining - 1,
            r is Err ==> final(self).remaining == old(self).remaining && final(self).events()
                == old(self).events(),
    {
        self.accept(Ghost(Event::LineBegin { size: size as int, idx: idx as int }))
    }

    fn line_end(&mut self, idx: usize) -> (r: Result<(), GeomError>)
        ensures
            r is Ok <==> old(self).remaining > 0,
            r is Ok ==> final(self).remaining == old(self).remaining - 1,
            r is Err ==> final(self).remaining == old(self).remaining && final(self).events()
                == old(self).events(),
    {
        self.accept(Ghost(Event::LineEnd { idx: idx as int }))
    }

    fn multiline_begin(&mut self, size: usize, idx: usize) -> (r: Result<(), GeomError>)
        ensures
            r is Ok <==> old(self).remaining > 0,
            r is Ok ==> final(self).remaining == old(self).remaining - 1,
            r is Err ==> final(self).remaining == old(self).remaining && final(self).events()
                == old(self).events(),
    {
        self.accept(Ghost(Event::MultilineBegin { size: size as int, idx: idx as int }))
    }

    fn multiline_end(&mut self, idx: usize) -> (r: Result<(), GeomError>)
        ensures
            r is Ok <==> old(self).remaining > 0,
            r is Ok ==> final(self).remaining == old(self).remaining - 1,
            r is Err ==> final(self).remaining == old(self).remaining && final(self).events()
                == old(self).events(),
    {
        self.accept(Ghost(Event::MultilineEnd { idx: idx as int }))
    }

    fn ring_begin(&mut self, size: usize, idx: usize) -> (r: Result<(), GeomError>)
        ensures
            r is Ok <==> old(self).remaining > 0,
            r is Ok ==> final(self).remaining == old(self).remaining - 1,
            r is Err ==> final(self).remaining == old(self).remaining && final(self).events()
                == old(self).events(),
    {
        self.accept(Ghost(Event::RingBegin { size: size as int, idx: idx as int }))
    }

    fn ring_end(&mut self, idx: usize) -> (r: Result<(), GeomError>)
        ensures
            r is Ok <==> old(self).remaining > 0,
            r is Ok ==> final(self).remaining == old(self).remaining - 1,
            r is Err ==> final(self).remaining == old(self).remaining && final(self).events()
                == old(self).events(),
    {
        self.accept(Ghost(Event::RingEnd { idx: idx as int }))
    }

    fn poly_begin(&mut self, size: usize, idx: usize) -> (r: Result<(), GeomError>)
        ensures
            r is Ok <==> old(self).remaining > 0,
            r is Ok ==> final(self).remaining == old(self).remaining - 1,
            r is Err ==> final(self).remaining == old(self).remaining && final(self).events()
                == old(self).events(),
    {
        self.accept(Ghost(Event::PolyBegin { size: size as int, idx: idx as int }))
    }

    fn poly_end(&mut self, idx: usize) -> (r: Result<(), GeomError>)
        ensures
            r is Ok <==> old(self).remaining > 0,
            r is Ok ==> final(self).remaining == old(self).remaining - 1,
            r is Err ==> final(self).remaining == old(self).remaining && final(self).events()
                == old(self).events(),
    {
        self.accept(Ghost(Event::PolyEnd { idx: idx as int }))
    }

    fn subpoly_begin(&mut self, size: usize, idx: usize) -> (r: Result<(), GeomError>)
        ensures
            r is Ok <==> old(self).remaining > 0,
            r is Ok ==> final(self).remaining == old(self).remaining - 1,
            r is Err ==> final(self).remaining == old(self).remaining && final(self).events()
                == old(self).events(),
    {
        self.accept(Ghost(Event::SubpolyBegin { size: size as int, idx: idx as int }))
    }

    fn subpoly_end(&mut self, idx: usize) -> (r: Result<(), GeomError>)
        ensures
            r is Ok <==> old(self).remaining > 0,
            r is Ok ==> final(self).remaining == old(self).remaining - 1,
            r is Err ==> final(self).remaining == old(self).remaining && final(self).events()
                == old(self).events(),
    {
        self.accept(Ghost(Event::SubpolyEnd { idx: idx as int }))
    }

    fn multipoly_begin(&mut self, size: usize, idx: usize) -> (r: Result<(), GeomError>)
        ensures
            r is Ok <==> old(self).remaining > 0,
            r is Ok ==> final(self).remaining == old(self).remaining - 1,
            r is Err ==> final(self).remaining == old(self).remaining && final(self).events()
                == old(self).events(),
    {
        self.accept(Ghost(Event::MultipolyBegin { size: size as int, idx: idx as int }))
    }

    fn multipoly_end(&mut self, idx: usize) -> (r: Result<(), GeomError>)
        ensures
            r is Ok <==> old(self).remaining > 0,
            r is Ok ==> final(self).remaining == old(self).remaining - 1,
            r is Err ==> final(self).remaining == old(self).remaining && final(self).events()
                == old(self).events(),
    {
        self.accept(Ghost(Event::MultipolyEnd { idx: idx as int }))
    }
}

} // verus!
