//! The events of a stream, as values.

use crate::any_sval::{tree_of, SvalAny};
use crate::position::ProtocolError;
use crate::protocol::{initial, run, EventView, State};
use crate::value::{Any, Tree};
use vstd::prelude::*;

verus! {

/// One event of a stream.
#[derive(Debug, PartialEq, Eq)]
pub enum Event {
    /// A complete value: a primitive, or a container handed over whole.
    Value(Any),
    MapBegin,
    MapKey,
    MapValue,
    MapEnd,
    SeqBegin,
    SeqElem,
    SeqEnd,
}

impl View for Event {
    type V = EventView;

    open spec fn view(&self) -> EventView {
        match self {
            Event::Value(v) => EventView::Value(v@),
            Event::MapBegin => EventView::MapBegin,
            Event::MapKey => EventView::MapKey,
            Event::MapValue => EventView::MapValue,
            Event::MapEnd => EventView::MapEnd,
            Event::SeqBegin => EventView::SeqBegin,
            Event::SeqElem => EventView::SeqElem,
            Event::SeqEnd => EventView::SeqEnd,
        }
    }
}

/// The models of the events of a stream.
pub open spec fn events_view(events: Seq<Event>) -> Seq<EventView> {
    Seq::new(events.len(), |i: int| events[i]@)
}

/// What a stream builds from the state before the first event: the finished
/// value, none where the stream ends before one is complete, or the error
/// of the first event that the structure does not allow.
pub open spec fn built(events: Seq<EventView>) -> Result<Option<Tree>, ProtocolError> {
    match run(initial(), events) {
        Ok(st) => Ok(st.root),
        Err(e) => Err(e),
    }
}

/// The model of what `build` returns.
pub open spec fn build_view(r: Result<Option<Any>, ProtocolError>) -> Result<
    Option<Tree>,
    ProtocolError,
> {
    match r {
        Ok(v) => Ok(tree_of(v)),
        Err(e) => Err(e),
    }
}

/// The items of `items`, last first.
pub(crate) fn reversed<T>(items: Vec<T>) -> (out: Vec<T>)
    ensures
        out@ == items@.reverse(),
{
    let ghost all = items@;
    let mut rest = items;
    let mut out: Vec<T> = Vec::new();
    while rest.len() > 0
        invariant
            rest@.len() + out@.len() == all.len(),
            rest@ == all.subrange(0, rest@.len() as int),
            forall|k: int| 0 <= k < out@.len() ==> out@[k] == all[all.len() - 1 - k],
        decreases rest@.len(),
    {
        match rest.pop() {
            Some(item) => {
                out.push(item);
            },
            None => {},
        }
    }
    assert(out@ =~= all.reverse());
    out
}

/// Drives a fresh builder through the events of one stream and takes what
/// it has built.
pub fn build(events: Vec<Event>) -> (r: Result<Option<Any>, ProtocolError>)
    ensures
        build_view(r) == built(events_view(events@)),
{
    let ghost all = events_view(events@);
    let ghost given = events@;
    let total = events.len();
    let mut rest = reversed(events);
    let mut builder = SvalAny::new();
    let mut done: usize = 0;
    assert(all.skip(0) =~= all);
    while done < total
        invariant
            builder.wf(),
            done <= total,
            total == given.len(),
            given == events@,
            all == events_view(given),
            rest@ == given.reverse().subrange(0, total - done),
            run(initial(), all) == run(builder@, all.skip(done as int)),
        decreases total - done,
    {
        let ghost st = builder@;
        let ghost tail = all.skip(done as int);
        match rest.pop() {
            Some(event) => {
                proof {
                    assert(event == given[done as int]);
                    assert(tail[0] == event@);
                    assert(tail.drop_first() =~= all.skip(done + 1));
                    assert(rest@ =~= given.reverse().subrange(0, total - done - 1));
                }
                match builder.feed(event) {
                    Ok(()) => {},
                    Err(e) => {
                        assert(run(st, tail) == Err::<State, ProtocolError>(e));
                        return Err(e);
                    },
                }
            },
            None => {
                assert(false);
            },
        }
        done += 1;
    }
    Ok(builder.value())
}

} // verus!
