use vstd::prelude::*;
use vstd::string::StringExecFns;

use crate::error::GeomError;
use crate::events::Event;
use crate::geometry_reader::GeomReader;

verus! {

/// The element separator: a comma stands before every sibling except the one
/// at index 0; no trailing comma ever appears.
pub open spec fn comma_text(idx: int) -> Seq<char> {
    if idx > 0 {
        ","@
    } else {
        Seq::empty()
    }
}

/// The exact text one callback makes the emitter write.
pub open spec fn event_text(e: Event) -> Seq<char> {
    match e {
        Event::Xy { x, y, idx } => comma_text(idx) + "["@ + x + ","@ + y + "]"@,
        Event::Xyz { x, y, z, idx } => comma_text(idx) + "["@ + x + ","@ + y + ","@ + z + "]"@,
        Event::PointBegin { idx } => comma_text(idx) + "{\"type\": \"Point\", \"coordinates\": "@,
        Event::PointEnd { .. } => "}"@,
        Event::MultipointBegin { idx, .. } => comma_text(idx) + "{\"type\": \"MultiPoint\", \"coordinates\": ["@,
        Event::MultipointEnd { .. } => "]}"@,
        Event::LineBegin { idx, .. } => comma_text(idx) + "{\"type\": \"LineString\", \"coordinates\": ["@,
        Event::LineEnd { .. } => "]}"@,
        Event::MultilineBegin { idx, .. } => comma_text(idx) + "{\"type\": \"MultiLineString\", \"coordinates\": ["@,
        Event::MultilineEnd { .. } => "]}"@,
        Event::RingBegin { idx, .. } => comma_text(idx) + "["@,
        Event::RingEnd { .. } => "]"@,
        Event::PolyBegin { idx, .. } => comma_text(idx) + "{\"type\": \"Polygon\", \"coordinates\": ["@,
        Event::PolyEnd { .. } => "]}"@,
        Event::SubpolyBegin { idx, .. } => comma_text(idx) + "["@,
        Event::SubpolyEnd { .. } => "]"@,
        Event::MultipolyBegin { idx, .. } => comma_text(idx) + "{\"type\": \"MultiPolygon\", \"coordinates\": ["@,
        Event::MultipolyEnd { .. } => "]}"@,
    }
}

/// The exact text a whole event sequence renders to.
pub open spec fn text_of(evs: Seq<Event>) -> Seq<char>
    decreases evs.len(),
{
    if evs.len() == 0 {
        Seq::empty()
    } else {
        text_of(evs.drop_last()) + event_text(evs.last())
    }
}

pub proof fn lemma_text_of_push(evs: Seq<Event>, e: Event)
    ensures
        text_of(evs.push(e)) == text_of(evs) + event_text(e),
{
    assert(evs.push(e).drop_last() =~= evs);
}

/// The reference format emitter: renders protocol events incrementally into an
/// owned text buffer, with no intermediate buffering of the whole geometry and
/// no explicit nesting stack — the protocol's call discipline alone decides
/// which token each callback writes.
pub struct GeoJsonEmitter {
    /// The rendered output so far.
    pub out: String,
    /// The events received so far, kept only for reasoning.
    pub log: Ghost<Seq<Event>>,
}

impl GeoJsonEmitter {
    pub fn new() -> (r: GeoJsonEmitter)
        ensures
            r.events() == Seq::<Event>::empty(),
            r.out@ == Seq::<char>::empty(),
            r.wf(),
    {
        GeoJsonEmitter { out: String::new(), log: Ghost(Seq::empty()) }
    }

    /// The output stands exactly for the events received.
    pub open spec fn wf(&self) -> bool {
        self.out@ == text_of(self.log@)
    }

    /// Writes the element separator due at sibling position `idx`.
    pub fn comma(&mut self, idx: usize)
        ensures
            final(self).out@ == old(self).out@ + comma_text(idx as int),
            final(self).log == old(self).log,
    {
        if idx > 0 {
            self.put(",");
        }
        proof {
            assert(self.out@ =~= old(self).out@ + comma_text(idx as int));
        }
    }

    fn put(&mut self, s: &str)
        ensures
            final(self).out@ == old(self).out@ + s@,
            final(self).log == old(self).log,
    {
        self.out.append(s);
    }
}

/// Rendering is idempotent: two emitter instances that received the same
/// events hold character-identical output, so replaying one geometry through a
/// fresh instance of the emitter yields the same text.
pub proof fn lemma_emitter_deterministic(a: &GeoJsonEmitter, b: &GeoJsonEmitter)
    requires
        a.wf(),
        b.wf(),
        a.events() == b.events(),
    ensures
        a.out@ == b.out@,
{
}

impl GeomReader for GeoJsonEmitter {
    open spec fn events(&self) -> Seq<Event> {
        self.log@
    }

    fn pointxy(&mut self, x: &str, y: &str, idx: usize) -> (r: Result<(), GeomError>)
        ensures
            r is Ok,
            final(self).out@ == old(self).out@ + event_text(Event::Xy { x: x@, y: y@, idx: idx as int }),
            old(self).wf() ==> final(self).wf(),
    {
        let ghost ev = Event::Xy { x: x@, y: y@, idx: idx as int };
        self.comma(idx);
        self.put("[");
        self.put(x);
        self.put(",");
        self.put(y);
        self.put("]");
        self.log = Ghost(self.log@.push(ev));
        proof {
            lemma_text_of_push(old(self).log@, ev);
            assert(self.out@ =~= old(self).out@ + event_text(ev));
            if old(self).wf() {
                assert(self.wf());
            }
        }
        Ok(())
    }

    fn pointxyz(&mut self, x: &str, y: &str, z: &str, idx: usize) -> (r: Result<(), GeomError>)
        ensures
            r is Ok,
            final(self).out@ == old(self).out@ + event_text(Event::Xyz { x: x@, y: y@, z: z@, idx: idx as int }),
            old(self).wf() ==> final(self).wf(),
    {
        let ghost ev = Event::Xyz { x: x@, y: y@, z: z@, idx: idx as int };
        self.comma(idx);
        self.put("[");
        self.put(x);
        self.put(",");
        self.put(y);
        self.put(",");
        self.put(z);
        self.put("]");
        self.log = Ghost(self.log@.push(ev));
        proof {
            lemma_text_of_push(old(self).log@, ev);
            assert(self.out@ =~= old(self).out@ + event_text(ev));
            if old(self).wf() {
                assert(self.wf());
            }
        }
        Ok(())
    }

    fn point_begin(&mut self, idx: usize) -> (r: Result<(), GeomError>)
        ensures
            r is Ok,
            final(self).out@ == old(self).out@ + event_text(Event::PointBegin { idx: idx as int }),
            old(self).wf() ==> final(self).wf(),
    {
        let ghost ev = Event::PointBegin { idx: idx as int };
        self.comma(idx);
        self.put("{\"type\": \"Point\", \"coordinates\": ");
        self.log = Ghost(self.log@.push(ev));
        proof {
            lemma_text_of_push(old(self).log@, ev);
            assert(self.out@ =~= old(self).out@ + event_text(ev));
            if old(self).wf() {
                assert(self.wf());
            }
        }
        Ok(())
    }

    fn point_end(&mut self, idx: usize) -> (r: Result<(), GeomError>)
        ensures
            r is Ok,
            final(self).out@ == old(self).out@ + event_text(Event::PointEnd { idx: idx as int }),
            old(self).wf() ==> final(self).wf(),
    {
        let ghost ev = Event::PointEnd { idx: idx as int };
        self.put("}");
        self.log = Ghost(self.log@.push(ev));
        proof {
            lemma_text_of_push(old(self).log@, ev);
            assert(self.out@ =~= old(self).out@ + event_text(ev));
            if old(self).wf() {
                assert(self.wf());
            }
        }
        Ok(())
    }

    fn multipoint_begin(&mut self, size: usize, idx: usize) -> (r: Result<(), GeomError>)
        ensures
            r is Ok,
            final(self).out@ == old(self).out@ + event_text(Event::MultipointBegin { size: size as int, idx: idx as int }),
            old(self).wf() ==> final(self).wf(),
    {
        let ghost ev = Event::MultipointBegin { size: size as int, idx: idx as int };
        self.comma(idx);
        self.put("{\"type\": \"MultiPoint\", \"coordinates\": [");
        self.log = Ghost(self.log@.push(ev));
        proof {
            lemma_text_of_push(old(self).log@, ev);
            assert(self.out@ =~= old(self).out@ + event_text(ev));
            if old(self).wf() {
                assert(self.wf());
            }
        }
        Ok(())
    }

    fn multipoint_end(&mut self, idx: usize) -> (r: Result<(), GeomError>)
        ensures
            r is Ok,
            final(self).out@ == old(self).out@ + event_text(Event::MultipointEnd { idx: idx as int }),
            old(self).wf() ==> final(self).wf(),
    {
        let ghost ev = Event::MultipointEnd { idx: idx as int };
        self.put("]}");
        self.log = Ghost(self.log@.push(ev));
        proof {
            lemma_text_of_push(old(self).log@, ev);
            assert(self.out@ =~= old(self).out@ + event_text(ev));
            if old(self).wf() {
                assert(self.wf());
            }
        }
        Ok(())
    }

    fn line_begin(&mut self, size: usize, idx: usize) -> (r: Result<(), GeomError>)
        ensures
            r is Ok,
            final(self).out@ == old(self).out@ + event_text(Event::LineBegin { size: size as int, idx: idx as int }),
            old(self).wf() ==> final(self).wf(),
    {
        let ghost ev = Event::LineBegin { size: size as int, idx: idx as int };
        self.comma(idx);
        self.put("{\"type\": \"LineString\", \"coordinates\": [");
        self.log = Ghost(self.log@.push(ev));
        proof {
            lemma_text_of_push(old(self).log@, ev);
            assert(self.out@ =~= old(self).out@ + event_text(ev));
            if old(self).wf() {
                assert(self.wf());
            }
        }
        Ok(())
    }

    fn line_end(&mut self, idx: usize) -> (r: Result<(), GeomError>)
        ensures
            r is Ok,
            final(self).out@ == old(self).out@ + event_text(Event::LineEnd { idx: idx as int }),
            old(self).wf() ==> final(self).wf(),
    {
        let ghost ev = Event::LineEnd { idx: idx as int };
        self.put("]}");
        self.log = Ghost(self.log@.push(ev));
        proof {
            lemma_text_of_push(old(self).log@, ev);
            assert(self.out@ =~= old(self).out@ + event_text(ev));
            if old(self).wf() {
                assert(self.wf());
            }
        }
        Ok(())
    }

    fn multiline_begin(&mut self, size: usize, idx: usize) -> (r: Result<(), GeomError>)
        ensures
            r is Ok,
            final(self).out@ == old(self).out@ + event_text(Event::MultilineBegin { size: size as int, idx: idx as int }),
            old(self).wf() ==> final(self).wf(),
    {
        let ghost ev = Event::MultilineBegin { size: size as int, idx: idx as int };
        self.comma(idx);
        self.put("{\"type\": \"MultiLineString\", \"coordinates\": [");
        self.log = Ghost(self.log@.push(ev));
        proof {
            lemma_text_of_push(old(self).log@, ev);
            assert(self.out@ =~= old(self).out@ + event_text(ev));
            if old(self).wf() {
                assert(self.wf());
            }
        }
        Ok(())
    }

    fn multiline_end(&mut self, idx: usize) -> (r: Result<(), GeomError>)
        ensures
            r is Ok,
            final(self).out@ == old(self).out@ + event_text(Event::MultilineEnd { idx: idx as int }),
            old(self).wf() ==> final(self).wf(),
    {
        let ghost ev = Event::MultilineEnd { idx: idx as int };
        self.put("]}");
        self.log = Ghost(self.log@.push(ev));
        proof {
            lemma_text_of_push(old(self).log@, ev);
            assert(self.out@ =~= old(self).out@ + event_text(ev));
            if old(self).wf() {
                assert(self.wf());
            }
        }
        Ok(())
    }

    fn ring_begin(&mut self, size: usize, idx: usize) -> (r: Result<(), GeomError>)
        ensures
            r is Ok,
            final(self).out@ == old(self).out@ + event_text(Event::RingBegin { size: size as int, idx: idx as int }),
            old(self).wf() ==> final(self).wf(),
    {
        let ghost ev = Event::RingBegin { size: size as int, idx: idx as int };
        self.comma(idx);
        self.put("[");
        self.log = Ghost(self.log@.push(ev));
        proof {
            lemma_text_of_push(old(self).log@, ev);
            assert(self.out@ =~= old(self).out@ + event_text(ev));
            if old(self).wf() {
                assert(self.wf());
            }
        }
        Ok(())
    }

    fn ring_end(&mut self, idx: usize) -> (r: Result<(), GeomError>)
        ensures
            r is Ok,
            final(self).out@ == old(self).out@ + event_text(Event::RingEnd { idx: idx as int }),
            old(self).wf() ==> final(self).wf(),
    {
        let ghost ev = Event::RingEnd { idx: idx as int };
        self.put("]");
        self.log = Ghost(self.log@.push(ev));
        proof {
            lemma_text_of_push(old(self).log@, ev);
            assert(self.out@ =~= old(self).out@ + event_text(ev));
            if old(self).wf() {
                assert(self.wf());
            }
        }
        Ok(())
    }

    fn poly_begin(&mut self, size: usize, idx: usize) -> (r: Result<(), GeomError>)
        ensures
            r is Ok,
            final(self).out@ == old(self).out@ + event_text(Event::PolyBegin { size: size as int, idx: idx as int }),
            old(self).wf() ==> final(self).wf(),
    {
        let ghost ev = Event::PolyBegin { size: size as int, idx: idx as int };
        self.comma(idx);
        self.put("{\"type\": \"Polygon\", \"coordinates\": [");
        self.log = Ghost(self.log@.push(ev));
        proof {
            lemma_text_of_push(old(self).log@, ev);
            assert(self.out@ =~= old(self).out@ + event_text(ev));
            if old(self).wf() {
                assert(self.wf());
            }
        }
        Ok(())
    }

    fn poly_end(&mut self, idx: usize) -> (r: Result<(), GeomError>)
        ensures
            r is Ok,
            final(self).out@ == old(self).out@ + event_text(Event::PolyEnd { idx: idx as int }),
            old(self).wf() ==> final(self).wf(),
    {
        let ghost ev = Event::PolyEnd { idx: idx as int };
        self.put("]}");
        self.log = Ghost(self.log@.push(ev));
        proof {
            lemma_text_of_push(old(self).log@, ev);
            assert(self.out@ =~= old(self).out@ + event_text(ev));
            if old(self).wf() {
                assert(self.wf());
            }
        }
        Ok(())
    }

    fn subpoly_begin(&mut self, size: usize, idx: usize) -> (r: Result<(), GeomError>)
        ensures
            r is Ok,
            final(self).out@ == old(self).out@ + event_text(Event::SubpolyBegin { size: size as int, idx: idx as int }),
            old(self).wf() ==> final(self).wf(),
    {
        let ghost ev = Event::SubpolyBegin { size: size as int, idx: idx as int };
        self.comma(idx);
        self.put("[");
        self.log = Ghost(self.log@.push(ev));
        proof {
            lemma_text_of_push(old(self).log@, ev);
            assert(self.out@ =~= old(self).out@ + event_text(ev));
            if old(self).wf() {
                assert(self.wf());
            }
        }
        Ok(())
    }

    fn subpoly_end(&mut self, idx: usize) -> (r: Result<(), GeomError>)
        ensures
            r is Ok,
            final(self).out@ == old(self).out@ + event_text(Event::SubpolyEnd { idx: idx as int }),
            old(self).wf() ==> final(self).wf(),
    {
        let ghost ev = Event::SubpolyEnd { idx: idx as int };
        self.put("]");
        self.log = Ghost(self.log@.push(ev));
        proof {
            lemma_text_of_push(old(self).log@, ev);
            assert(self.out@ =~= old(self).out@ + event_text(ev));
            if old(self).wf() {
                assert(self.wf());
            }
        }
        Ok(())
    }

    fn multipoly_begin(&mut self, size: usize, idx: usize) -> (r: Result<(), GeomError>)
        ensures
            r is Ok,
            final(self).out@ == old(self).out@ + event_text(Event::MultipolyBegin { size: size as int, idx: idx as int }),
            old(self).wf() ==> final(self).wf(),
    {
        let ghost ev = Event::MultipolyBegin { size: size as int, idx: idx as int };
        self.comma(idx);
        self.put("{\"type\": \"MultiPolygon\", \"coordinates\": [");
        self.log = Ghost(self.log@.push(ev));
        proof {
            lemma_text_of_push(old(self).log@, ev);
            assert(self.out@ =~= old(self).out@ + event_text(ev));
            if old(self).wf() {
                assert(self.wf());
            }
        }
        Ok(())
    }

    fn multipoly_end(&mut self, idx: usize) -> (r: Result<(), GeomError>)
        ensures
            r is Ok,
            final(self).out@ == old(self).out@ + event_text(Event::MultipolyEnd { idx: idx as int }),
            old(self).wf() ==> final(self).wf(),
    {
        let ghost ev = Event::MultipolyEnd { idx: idx as int };
        self.put("]}");
        self.log = Ghost(self.log@.push(ev));
        proof {
            lemma_text_of_push(old(self).log@, ev);
            assert(self.out@ =~= old(self).out@ + event_text(ev));
            if old(self).wf() {
                assert(self.wf());
            }
        }
        Ok(())
    }
}

} // verus!
