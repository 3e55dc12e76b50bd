//! The streaming protocol as a state machine: what each event of a stream
//! does to the containers under construction.

use crate::position::{
    awaits_value, between_elems, between_entries, mark_done, position_of, with_last, Position,
    ProtocolError, Slot,
};
use crate::text::text_of;
use crate::value::{put, Tree};
use vstd::prelude::*;

verus! {

/// The model of one event of a stream.
pub enum EventView {
    /// A complete value: a primitive, or a container handed over whole.
    Value(Tree),
    MapBegin,
    MapKey,
    MapValue,
    MapEnd,
    SeqBegin,
    SeqElem,
    SeqEnd,
}

/// The model of a container under construction.
#[verifier::ext_equal]
pub enum FrameView {
    /// A map: the entries it has so far, and the key of the entry that is
    /// being read, as text.
    Mapping { entries: Seq<(Seq<char>, Tree)>, key: Option<Seq<char>> },
    /// A sequence: the elements it has so far.
    List { items: Seq<Tree> },
}

/// The model of a builder: the slots of its position stack, one frame for
/// each open container, and the finished value once there is one.
#[verifier::ext_equal]
pub struct State {
    pub slots: Seq<Slot>,
    pub frames: Seq<FrameView>,
    pub root: Option<Tree>,
}

/// The state before the first event.
pub open spec fn initial() -> State {
    State { slots: seq![Slot::Root], frames: Seq::empty(), root: None }
}

/// A frame agrees with its slot: a map has a key at hand from the moment the
/// key is complete until the value is.
pub open spec fn level_ok(frame: FrameView, slot: Slot) -> bool {
    match frame {
        FrameView::Mapping { entries, key } => match slot {
            Slot::MapStart | Slot::MapKey | Slot::MapValueDone => key is None,
            Slot::MapKeyDone | Slot::MapValue => key is Some,
            _ => false,
        },
        FrameView::List { items } => slot is SeqStart || slot is SeqElem || slot is SeqElemDone,
    }
}

/// The states that a builder can be in: one frame for each slot above the
/// root's, each agreeing with its slot; every slot but the innermost waits
/// for the container that is open in it; a finished value only when the
/// root is done.
pub open spec fn well_formed(st: State) -> bool {
    &&& st.slots.len() == st.frames.len() + 1
    &&& (st.slots[0] is Root || st.slots[0] is RootDone)
    &&& (st.root is Some ==> st.slots[0] is RootDone)
    &&& forall|i: int|
        0 <= i < st.frames.len() ==> level_ok(#[trigger] st.frames[i], st.slots[i + 1])
    &&& forall|i: int| 0 <= i < st.frames.len() ==> awaits_value(#[trigger] st.slots[i])
}

/// Hands a complete value to the innermost slot, which waits for one. The
/// slot is then done, and the value goes where the slot says: it becomes the
/// finished value, the text of a key, the value of the entry whose key is at
/// hand (a value that the key had before is replaced), or one more element.
pub open spec fn deliver(st: State, v: Tree) -> State {
    let slots = with_last(st.slots, mark_done(st.slots.last()));
    match position_of(st.slots.last()) {
        Position::Root => State { slots, frames: st.frames, root: Some(v) },
        Position::Key => match st.frames.last() {
            FrameView::Mapping { entries, key } => State {
                slots,
                frames: with_last(st.frames, FrameView::Mapping { entries, key: Some(text_of(v)) }),
                root: st.root,
            },
            _ => State { slots, frames: st.frames, root: st.root },
        },
        Position::Value => match st.frames.last() {
            FrameView::Mapping { entries, key: Some(k) } => State {
                slots,
                frames: with_last(
                    st.frames,
                    FrameView::Mapping { entries: put(entries, k, v), key: None },
                ),
                root: st.root,
            },
            _ => State { slots, frames: st.frames, root: st.root },
        },
        Position::Elem => match st.frames.last() {
            FrameView::List { items } => State {
                slots,
                frames: with_last(st.frames, FrameView::List { items: items.push(v) }),
                root: st.root,
            },
            _ => State { slots, frames: st.frames, root: st.root },
        },
    }
}

/// The state with the innermost container taken off.
pub open spec fn without_top(st: State) -> State {
    State { slots: st.slots.drop_last(), frames: st.frames.drop_last(), root: st.root }
}

/// The finished form of a container under construction.
pub open spec fn finish(frame: FrameView) -> Tree {
    match frame {
        FrameView::Mapping { entries, key } => Tree::Mapping(entries),
        FrameView::List { items } => Tree::List(items),
    }
}

/// One event: the state after it, or the error where the structure of the
/// stream does not allow it.
///
/// A container that ends is handed, finished, to the slot it stood in, as
/// any other value is.
pub open spec fn step(st: State, event: EventView) -> Result<State, ProtocolError> {
    let top = st.slots.last();
    match event {
        EventView::Value(v) => if awaits_value(top) {
            Ok(deliver(st, v))
        } else {
            Err(ProtocolError::Primitive)
        },
        EventView::MapBegin => if awaits_value(top) {
            Ok(
                State {
                    slots: st.slots.push(Slot::MapStart),
                    frames: st.frames.push(FrameView::Mapping { entries: Seq::empty(), key: None }),
                    root: st.root,
                },
            )
        } else {
            Err(ProtocolError::MapBegin)
        },
        EventView::MapKey => if between_entries(top) {
            Ok(State { slots: with_last(st.slots, Slot::MapKey), frames: st.frames, root: st.root })
        } else {
            Err(ProtocolError::MapKey)
        },
        EventView::MapValue => if top is MapKeyDone {
            Ok(
                State {
                    slots: with_last(st.slots, Slot::MapValue),
                    frames: st.frames,
                    root: st.root,
                },
            )
        } else {
            Err(ProtocolError::MapValue)
        },
        EventView::MapEnd => if between_entries(top) {
            Ok(deliver(without_top(st), finish(st.frames.last())))
        } else {
            Err(ProtocolError::MapEnd)
        },
        EventView::SeqBegin => if awaits_value(top) {
            Ok(
                State {
                    slots: st.slots.push(Slot::SeqStart),
                    frames: st.frames.push(FrameView::List { items: Seq::empty() }),
                    root: st.root,
                },
            )
        } else {
            Err(ProtocolError::SeqBegin)
        },
        EventView::SeqElem => if between_elems(top) {
            Ok(
                State { slots: with_last(st.slots, Slot::SeqElem), frames: st.frames, root: st.root },
            )
        } else {
            Err(ProtocolError::SeqElem)
        },
        EventView::SeqEnd => if between_elems(top) {
            Ok(deliver(without_top(st), finish(st.frames.last())))
        } else {
            Err(ProtocolError::SeqEnd)
        },
    }
}

/// What a call reports, together with the state it leaves: the result of the
/// step that the call stands for.
pub open spec fn outcome(r: Result<(), ProtocolError>, st: State) -> Result<State, ProtocolError> {
    match r {
        Ok(_) => Ok(st),
        Err(e) => Err(e),
    }
}

/// A stream of events, from left to right: the state after the last, or
/// the error of the first that is not allowed.
pub open spec fn run(st: State, events: Seq<EventView>) -> Result<State, ProtocolError>
    decreases events.len(),
{
    if events.len() == 0 {
        Ok(st)
    } else {
        match step(st, events[0]) {
            Ok(next) => run(next, events.drop_first()),
            Err(e) => Err(e),
        }
    }
}

/// Handing a value to a slot that waits for one keeps the state well formed.
pub proof fn lemma_deliver_well_formed(st: State, v: Tree)
    requires
        well_formed(st),
        awaits_value(st.slots.last()),
    ensures
        well_formed(deliver(st, v)),
{
    let out = deliver(st, v);
    let n = st.frames.len() as int;
    assert(out.slots.len() == st.slots.len());
    assert(out.frames.len() == st.frames.len());
    if n > 0 {
        assert(level_ok(st.frames[n - 1], st.slots[n]));
        assert(awaits_value(st.slots[0]));
    }
    assert forall|i: int| 0 <= i < out.frames.len() implies level_ok(
        #[trigger] out.frames[i],
        out.slots[i + 1],
    ) by {
        if i < n - 1 {
            assert(level_ok(st.frames[i], st.slots[i + 1]));
            assert(out.frames[i] == st.frames[i]);
        }
    }
    assert forall|i: int| 0 <= i < out.frames.len() implies awaits_value(
        #[trigger] out.slots[i],
    ) by {
        assert(awaits_value(st.slots[i]));
    }
}

/// With its innermost container taken off, a well-formed state is well
/// formed still, and the slot that the container stood in waits for it.
pub proof fn lemma_without_top_well_formed(st: State)
    requires
        well_formed(st),
        st.frames.len() > 0,
    ensures
        well_formed(without_top(st)),
        awaits_value(without_top(st).slots.last()),
        without_top(st).slots.last() == st.slots[st.frames.len() - 1],
{
    let inner = without_top(st);
    let n = st.frames.len() as int;
    assert(awaits_value(st.slots[n - 1]));
    assert(inner.slots.last() == st.slots[n - 1]);
    assert forall|i: int| 0 <= i < inner.frames.len() implies level_ok(
        #[trigger] inner.frames[i],
        inner.slots[i + 1],
    ) by {
        assert(level_ok(st.frames[i], st.slots[i + 1]));
    }
    assert forall|i: int| 0 <= i < inner.frames.len() implies awaits_value(
        #[trigger] inner.slots[i],
    ) by {
        assert(awaits_value(st.slots[i]));
    }
}

/// No event leads out of the well-formed states.
pub proof fn lemma_step_well_formed(st: State, event: EventView)
    requires
        well_formed(st),
        step(st, event) is Ok,
    ensures
        well_formed(step(st, event)->Ok_0),
{
    let out = step(st, event)->Ok_0;
    let n = st.frames.len() as int;
    if n > 0 {
        assert(level_ok(st.frames[n - 1], st.slots[n]));
        assert(awaits_value(st.slots[0]));
    }
    match event {
        EventView::Value(v) => {
            lemma_deliver_well_formed(st, v);
        },
        EventView::MapBegin | EventView::SeqBegin => {
            assert forall|i: int| 0 <= i < out.frames.len() implies level_ok(
                #[trigger] out.frames[i],
                out.slots[i + 1],
            ) by {
                if i < n {
                    assert(level_ok(st.frames[i], st.slots[i + 1]));
                    assert(out.frames[i] == st.frames[i]);
                }
            }
            assert forall|i: int| 0 <= i < out.frames.len() implies awaits_value(
                #[trigger] out.slots[i],
            ) by {
                if i < n {
                    assert(awaits_value(st.slots[i]));
                }
            }
        },
        EventView::MapKey | EventView::MapValue | EventView::SeqElem => {
            assert forall|i: int| 0 <= i < out.frames.len() implies level_ok(
                #[trigger] out.frames[i],
                out.slots[i + 1],
            ) by {
                assert(level_ok(st.frames[i], st.slots[i + 1]));
            }
            assert forall|i: int| 0 <= i < out.frames.len() implies awaits_value(
                #[trigger] out.slots[i],
            ) by {
                assert(awaits_value(st.slots[i]));
            }
        },
        EventView::MapEnd | EventView::SeqEnd => {
            assert(n > 0);
            lemma_without_top_well_formed(st);
            lemma_deliver_well_formed(without_top(st), finish(st.frames.last()));
        },
    }
}

/// No stream leads out of the well-formed states.
pub proof fn lemma_run_well_formed(st: State, events: Seq<EventView>)
    requires
        well_formed(st),
        run(st, events) is Ok,
    ensures
        well_formed(run(st, events)->Ok_0),
    decreases events.len(),
{
    if events.len() > 0 {
        lemma_step_well_formed(st, events[0]);
        lemma_run_well_formed(step(st, events[0])->Ok_0, events.drop_first());
    }
}

} // verus!
