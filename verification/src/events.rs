use vstd::prelude::*;

verus! {

/// Which coordinate components a traversal carries. The flag is agreed before
/// the traversal begins and stays constant for its whole duration; it decides
/// which coordinate-callback variant a driver uses.
#[derive(Clone, Copy, PartialEq, Eq, Structural, Debug)]
pub enum Dims {
    /// Two components: X and Y.
    Xy,
    /// Three components: X, Y and Z.
    Xyz,
}

/// One protocol callback, as a mathematical value: the record of what a driver
/// handed to a consumer. Coordinate scalars appear as the character sequences
/// of their decimal text.
pub enum Event {
    Xy { x: Seq<char>, y: Seq<char>, idx: int },
    Xyz { x: Seq<char>, y: Seq<char>, z: Seq<char>, idx: int },
    PointBegin { idx: int },
    PointEnd { idx: int },
    MultipointBegin { size: int, idx: int },
    MultipointEnd { idx: int },
    LineBegin { size: int, idx: int },
    LineEnd { idx: int },
    MultilineBegin { size: int, idx: int },
    MultilineEnd { idx: int },
    RingBegin { size: int, idx: int },
    RingEnd { idx: int },
    PolyBegin { size: int, idx: int },
    PolyEnd { idx: int },
    SubpolyBegin { size: int, idx: int },
    SubpolyEnd { idx: int },
    MultipolyBegin { size: int, idx: int },
    MultipolyEnd { idx: int },
}

/// The structural scopes whose begin/end callbacks must nest as a stack.
pub enum Kind {
    Point,
    MultiPoint,
    Line,
    MultiLine,
    Ring,
    Poly,
    SubPoly,
    MultiPoly,
}

/// The scope a begin-callback opens, if the event is one.
pub open spec fn begin_kind(e: Event) -> Option<Kind> {
    match e {
        Event::PointBegin { .. } => Some(Kind::Point),
        Event::MultipointBegin { .. } => Some(Kind::MultiPoint),
        Event::LineBegin { .. } => Some(Kind::Line),
        Event::MultilineBegin { .. } => Some(Kind::MultiLine),
        Event::RingBegin { .. } => Some(Kind::Ring),
        Event::PolyBegin { .. } => Some(Kind::Poly),
        Event::SubpolyBegin { .. } => Some(Kind::SubPoly),
        Event::MultipolyBegin { .. } => Some(Kind::MultiPoly),
        _ => None,
    }
}

/// The scope an end-callback closes, if the event is one.
pub open spec fn end_kind(e: Event) -> Option<Kind> {
    match e {
        Event::PointEnd { .. } => Some(Kind::Point),
        Event::MultipointEnd { .. } => Some(Kind::MultiPoint),
        Event::LineEnd { .. } => Some(Kind::Line),
        Event::MultilineEnd { .. } => Some(Kind::MultiLine),
        Event::RingEnd { .. } => Some(Kind::Ring),
        Event::PolyEnd { .. } => Some(Kind::Poly),
        Event::SubpolyEnd { .. } => Some(Kind::SubPoly),
        Event::MultipolyEnd { .. } => Some(Kind::MultiPoly),
        _ => None,
    }
}

/// The dimensionality a coordinate callback uses, if the event is one.
pub open spec fn event_dims(e: Event) -> Option<Dims> {
    match e {
        Event::Xy { .. } => Some(Dims::Xy),
        Event::Xyz { .. } => Some(Dims::Xyz),
        _ => None,
    }
}

/// One step of the nesting automaton: a begin pushes its scope, an end pops a
/// matching scope, a coordinate callback leaves the stack alone. `None` is the
/// sink state of a broken call order.
pub open spec fn step(st: Option<Seq<Kind>>, e: Event) -> Option<Seq<Kind>> {
    match st {
        None => None,
        Some(s) => match begin_kind(e) {
            Some(k) => Some(s.push(k)),
            None => match end_kind(e) {
                Some(k) => if s.len() > 0 && s.last() == k {
                    Some(s.drop_last())
                } else {
                    None
                },
                None => Some(s),
            },
        },
    }
}

/// Runs the nesting automaton over a whole event sequence.
pub open spec fn run(st: Option<Seq<Kind>>, evs: Seq<Event>) -> Option<Seq<Kind>>
    decreases evs.len(),
{
    if evs.len() == 0 {
        st
    } else {
        run(step(st, evs.first()), evs.drop_first())
    }
}

/// An event sequence that leaves every scope stack exactly as it found it: the
/// mark of a complete, properly nested traversal fragment.
pub open spec fn neutral(evs: Seq<Event>) -> bool {
    forall|st: Seq<Kind>| #[trigger] run(Some(st), evs) == Some(st)
}

/// A whole traversal nests correctly: started on an empty scope stack, the
/// automaton never rejects and ends on an empty stack again.
pub open spec fn well_nested(evs: Seq<Event>) -> bool {
    run(Some(Seq::<Kind>::empty()), evs) == Some(Seq::<Kind>::empty())
}

/// How many begin-callbacks for scope `k` the sequence holds.
pub open spec fn begin_count(evs: Seq<Event>, k: Kind) -> nat
    decreases evs.len(),
{
    if evs.len() == 0 {
        0
    } else {
        begin_count(evs.drop_last(), k) + if begin_kind(evs.last()) == Some(k) {
            1nat
        } else {
            0nat
        }
    }
}

/// How many end-callbacks for scope `k` the sequence holds.
pub open spec fn end_count(evs: Seq<Event>, k: Kind) -> nat
    decreases evs.len(),
{
    if evs.len() == 0 {
        0
    } else {
        end_count(evs.drop_last(), k) + if end_kind(evs.last()) == Some(k) {
            1nat
        } else {
            0nat
        }
    }
}

/// Every event of the sequence satisfies `pred`.
pub open spec fn all_events(evs: Seq<Event>, pred: spec_fn(Event) -> bool) -> bool {
    forall|i: int| 0 <= i < evs.len() ==> #[trigger] pred(evs[i])
}

pub proof fn lemma_run_concat(st: Option<Seq<Kind>>, a: Seq<Event>, b: Seq<Event>)
    ensures
        run(st, a + b) == run(run(st, a), b),
    decreases a.len(),
{
    if a.len() == 0 {
        assert(a + b =~= b);
    } else {
        assert((a + b).drop_first() =~= a.drop_first() + b);
        lemma_run_concat(step(st, a.first()), a.drop_first(), b);
    }
}

pub proof fn lemma_counts_concat(a: Seq<Event>, b: Seq<Event>, k: Kind)
    ensures
        begin_count(a + b, k) == begin_count(a, k) + begin_count(b, k),
        end_count(a + b, k) == end_count(a, k) + end_count(b, k),
    decreases b.len(),
{
    if b.len() == 0 {
        assert(a + b =~= a);
    } else {
        assert((a + b).drop_last() =~= a + b.drop_last());
        lemma_counts_concat(a, b.drop_last(), k);
    }
}

pub proof fn lemma_all_events_concat(a: Seq<Event>, b: Seq<Event>, pred: spec_fn(Event) -> bool)
    requires
        all_events(a, pred),
        all_events(b, pred),
    ensures
        all_events(a + b, pred),
{
    assert forall|i: int| 0 <= i < (a + b).len() implies #[trigger] pred((a + b)[i]) by {
        if i < a.len() {
            assert(pred(a[i]));
        } else {
            assert(pred(b[i - a.len()]));
        }
    }
}

/// The concatenation of `n` event segments, the `i`-th produced by `unit(i)`:
/// the shape that a collection's direct children give a traversal.
pub open spec fn cat_events(n: int, unit: spec_fn(int) -> Seq<Event>) -> Seq<Event>
    decreases n,
{
    if n <= 0 {
        Seq::empty()
    } else {
        cat_events(n - 1, unit) + unit(n - 1)
    }
}

/// Where the `i`-th segment starts inside the concatenation.
pub open spec fn cat_offset(i: int, unit: spec_fn(int) -> Seq<Event>) -> int {
    cat_events(i, unit).len() as int
}

/// A shorter concatenation is a prefix of a longer one.
pub proof fn lemma_cat_prefix(m: int, n: int, unit: spec_fn(int) -> Seq<Event>)
    requires
        0 <= m <= n,
    ensures
        cat_events(m, unit).len() <= cat_events(n, unit).len(),
        cat_events(m, unit) == cat_events(n, unit).take(cat_events(m, unit).len() as int),
    decreases n - m,
{
    if m == n {
        assert(cat_events(m, unit) =~= cat_events(n, unit).take(cat_events(m, unit).len() as int));
    } else {
        lemma_cat_prefix(m, n - 1, unit);
        assert(cat_events(m, unit) =~= cat_events(n, unit).take(cat_events(m, unit).len() as int));
    }
}

/// The `i`-th segment stands unchanged at its offset inside the concatenation.
pub proof fn lemma_cat_segment(n: int, i: int, unit: spec_fn(int) -> Seq<Event>)
    requires
        0 <= i < n,
    ensures
        0 <= cat_offset(i, unit),
        cat_offset(i + 1, unit) == cat_offset(i, unit) + unit(i).len(),
        cat_offset(i + 1, unit) <= cat_events(n, unit).len(),
        cat_events(n, unit).subrange(cat_offset(i, unit), cat_offset(i + 1, unit)) == unit(i),
{
    lemma_cat_prefix(i + 1, n, unit);
    lemma_cat_prefix(i, i + 1, unit);
    let a = cat_events(i, unit);
    let b = cat_events(i + 1, unit);
    let c = cat_events(n, unit);
    assert(b == a + unit(i));
    assert forall|j: int| 0 <= j < unit(i).len() implies c.subrange(
        a.len() as int,
        b.len() as int,
    )[j] == unit(i)[j] by {
        assert(b[a.len() + j] == unit(i)[j]);
        assert(b == c.take(b.len() as int));
        assert(c[a.len() + j] == b[a.len() + j]);
    }
    assert(c.subrange(cat_offset(i, unit), cat_offset(i + 1, unit)) =~= unit(i));
}

/// A concatenation of neutral segments is neutral.
pub proof fn lemma_cat_neutral(n: int, unit: spec_fn(int) -> Seq<Event>)
    requires
        forall|i: int| 0 <= i < n ==> #[trigger] neutral(unit(i)),
    ensures
        neutral(cat_events(n, unit)),
    decreases n,
{
    if n <= 0 {
        assert forall|st: Seq<Kind>| #[trigger] run(Some(st), cat_events(n, unit)) == Some(st) by {
        }
    } else {
        lemma_cat_neutral(n - 1, unit);
        assert forall|st: Seq<Kind>| #[trigger] run(Some(st), cat_events(n, unit)) == Some(st) by {
            lemma_run_concat(Some(st), cat_events(n - 1, unit), unit(n - 1));
            assert(neutral(unit(n - 1)));
        }
    }
}

/// A concatenation of segments whose begin and end counts agree has agreeing
/// counts itself.
pub proof fn lemma_cat_counts(n: int, unit: spec_fn(int) -> Seq<Event>, k: Kind)
    requires
        forall|i: int| 0 <= i < n ==> begin_count(#[trigger] unit(i), k) == end_count(unit(i), k),
    ensures
        begin_count(cat_events(n, unit), k) == end_count(cat_events(n, unit), k),
    decreases n,
{
    if n > 0 {
        lemma_cat_counts(n - 1, unit, k);
        lemma_counts_concat(cat_events(n - 1, unit), unit(n - 1), k);
    }
}

/// A concatenation of segments that all satisfy `pred` satisfies it whole.
pub proof fn lemma_cat_all(n: int, unit: spec_fn(int) -> Seq<Event>, pred: spec_fn(Event) -> bool)
    requires
        forall|i: int| 0 <= i < n ==> all_events(#[trigger] unit(i), pred),
    ensures
        all_events(cat_events(n, unit), pred),
    decreases n,
{
    if n > 0 {
        lemma_cat_all(n - 1, unit, pred);
        lemma_all_events_concat(cat_events(n - 1, unit), unit(n - 1), pred);
    }
}

/// The event's coordinate callback, if it is one, uses the variant that the
/// traversal's dimensionality flag picks.
pub open spec fn dims_ok(e: Event, dims: Dims) -> bool {
    event_dims(e) is Some ==> event_dims(e) == Some(dims)
}

pub open spec fn dims_pred(dims: Dims) -> spec_fn(Event) -> bool {
    |ev0: Event| dims_ok(ev0, dims)
}

/// A complete traversal fragment under dimensionality `dims`: it leaves every
/// scope stack as it found it, begin- and end-callbacks balance for every
/// scope, and every coordinate callback matches `dims`.
pub open spec fn fragment_ok(evs: Seq<Event>, dims: Dims) -> bool {
    &&& neutral(evs)
    &&& forall|k: Kind| #[trigger] begin_count(evs, k) == end_count(evs, k)
    &&& all_events(evs, dims_pred(dims))
}

/// Running the automaton over a one-event sequence is one step.
pub proof fn lemma_run_single(st: Option<Seq<Kind>>, e: Event)
    ensures
        run(st, seq![e]) == step(st, e),
{
    assert(seq![e].drop_first() =~= Seq::<Event>::empty());
    assert(run(step(st, e), Seq::<Event>::empty()) == step(st, e));
}

/// The counts of a one-event sequence.
pub proof fn lemma_counts_single(e: Event, k: Kind)
    ensures
        begin_count(seq![e], k) == if begin_kind(e) == Some(k) {
            1nat
        } else {
            0nat
        },
        end_count(seq![e], k) == if end_kind(e) == Some(k) {
            1nat
        } else {
            0nat
        },
{
    assert(seq![e].drop_last() =~= Seq::<Event>::empty());
    assert(begin_count(Seq::<Event>::empty(), k) == 0);
    assert(end_count(Seq::<Event>::empty(), k) == 0);
}

/// A lone coordinate callback is a complete fragment.
pub proof fn lemma_single_fragment(e: Event, dims: Dims)
    requires
        begin_kind(e) is None,
        end_kind(e) is None,
        dims_ok(e, dims),
    ensures
        fragment_ok(seq![e], dims),
{
    assert forall|st: Seq<Kind>| #[trigger] run(Some(st), seq![e]) == Some(st) by {
        lemma_run_single(Some(st), e);
    }
    assert forall|k: Kind| #[trigger] begin_count(seq![e], k) == end_count(seq![e], k) by {
        lemma_counts_single(e, k);
    }
    assert forall|i: int| 0 <= i < seq![e].len() implies #[trigger] dims_pred(dims)(
        seq![e][i],
    ) by {
        assert(seq![e][i] == e);
    }
}

/// Bracketing a complete fragment in a matching begin/end pair yields a
/// complete fragment again.
pub proof fn lemma_wrap_fragment(b: Event, mid: Seq<Event>, e: Event, k: Kind, dims: Dims)
    requires
        fragment_ok(mid, dims),
        begin_kind(b) == Some(k),
        end_kind(b) is None,
        event_dims(b) is None,
        begin_kind(e) is None,
        end_kind(e) == Some(k),
        event_dims(e) is None,
    ensures
        fragment_ok(seq![b] + mid + seq![e], dims),
{
    let evs = seq![b] + mid + seq![e];
    assert forall|st: Seq<Kind>| #[trigger] run(Some(st), evs) == Some(st) by {
        lemma_run_concat(Some(st), seq![b] + mid, seq![e]);
        lemma_run_concat(Some(st), seq![b], mid);
        lemma_run_single(Some(st), b);
        assert(run(Some(st), seq![b]) == Some(st.push(k)));
        assert(run(Some(st.push(k)), mid) == Some(st.push(k)));
        lemma_run_single(Some(st.push(k)), e);
        assert(st.push(k).drop_last() =~= st);
        assert(run(Some(st.push(k)), seq![e]) == Some(st));
    }
    assert forall|kk: Kind| #[trigger] begin_count(evs, kk) == end_count(evs, kk) by {
        lemma_counts_concat(seq![b] + mid, seq![e], kk);
        lemma_counts_concat(seq![b], mid, kk);
        lemma_counts_single(b, kk);
        lemma_counts_single(e, kk);
    }
    assert(all_events(seq![b], dims_pred(dims))) by {
        assert forall|i: int| 0 <= i < seq![b].len() implies #[trigger] dims_pred(dims)(
            seq![b][i],
        ) by {
            assert(seq![b][i] == b);
        }
    }
    assert(all_events(seq![e], dims_pred(dims))) by {
        assert forall|i: int| 0 <= i < seq![e].len() implies #[trigger] dims_pred(dims)(
            seq![e][i],
        ) by {
            assert(seq![e][i] == e);
        }
    }
    lemma_all_events_concat(seq![b], mid, dims_pred(dims));
    lemma_all_events_concat(seq![b] + mid, seq![e], dims_pred(dims));
}

/// A concatenation of complete fragments is a complete fragment.
pub proof fn lemma_cat_fragment(n: int, unit: spec_fn(int) -> Seq<Event>, dims: Dims)
    requires
        forall|i: int| 0 <= i < n ==> fragment_ok(#[trigger] unit(i), dims),
    ensures
        fragment_ok(cat_events(n, unit), dims),
{
    assert forall|i: int| 0 <= i < n implies neutral(#[trigger] unit(i)) by {
        assert(fragment_ok(unit(i), dims));
    }
    lemma_cat_neutral(n, unit);
    assert forall|k: Kind| #[trigger] begin_count(cat_events(n, unit), k) == end_count(
        cat_events(n, unit),
        k,
    ) by {
        assert forall|i: int| 0 <= i < n implies begin_count(#[trigger] unit(i), k) == end_count(
            unit(i),
            k,
        ) by {
            assert(fragment_ok(unit(i), dims));
        }
        lemma_cat_counts(n, unit, k);
    }
    assert forall|i: int| 0 <= i < n implies all_events(#[trigger] unit(i), dims_pred(dims)) by {
        assert(fragment_ok(unit(i), dims));
    }
    lemma_cat_all(n, unit, dims_pred(dims));
}

} // verus!
