//! The value builder: turns the events of one stream into a value tree.

use crate::event::Event;
use crate::position::{
    after_end, awaits_value, classify, mark_done, position_of, stack_slots, with_last, Position,
    ProtocolError,
};
use crate::protocol::{
    deliver, finish, initial, lemma_step_well_formed, lemma_without_top_well_formed, level_ok,
    outcome, step, well_formed, without_top, EventView, FrameView, State,
};
use crate::text::any_to_string;
use crate::value::{items_view, Any, AnyMap, Tree};
use sval::stream::Stack;
use vstd::prelude::*;
use vstd::string::*;

verus! {

/// A container under construction.
enum Frame {
    Mapping { entries: AnyMap, key: Option<String> },
    List { items: Vec<Any> },
}

/// Builds a value tree from the events of one stream.
///
/// A position stack says which role each value plays; one frame for each
/// open container holds what the container has got so far.
pub struct SvalAny {
    slot: Option<Any>,
    frames: Vec<Frame>,
    stack: Stack,
}

/// The model of a value that may be absent.
pub open spec fn tree_of(value: Option<Any>) -> Option<Tree> {
    match value {
        Some(v) => Some(v@),
        None => None,
    }
}

/// The two's complement reading of 64 bits as a signed integer.
pub open spec fn reinterpret(v: u64) -> int {
    if v <= i64::MAX {
        v as int
    } else {
        v - 0x1_0000_0000_0000_0000
    }
}

spec fn key_view(key: Option<String>) -> Option<Seq<char>> {
    match key {
        Some(k) => Some(k@),
        None => None,
    }
}

spec fn frame_view(frame: Frame) -> FrameView {
    match frame {
        Frame::Mapping { entries, key } => FrameView::Mapping {
            entries: entries@,
            key: key_view(key),
        },
        Frame::List { items } => FrameView::List { items: items_view(items@) },
    }
}

spec fn frames_view(frames: Seq<Frame>) -> Seq<FrameView> {
    Seq::new(frames.len(), |i: int| frame_view(frames[i]))
}

impl View for SvalAny {
    type V = State;

    closed spec fn view(&self) -> State {
        State {
            slots: stack_slots(self.stack),
            frames: frames_view(self.frames@),
            root: tree_of(self.slot),
        }
    }
}

impl SvalAny {
    /// The builder is in one of the states that the events of a stream lead
    /// to. Every builder that `new` made is.
    pub open spec fn wf(&self) -> bool {
        well_formed(self@)
    }

    /// A builder before the first event.
    pub fn new() -> (builder: SvalAny)
        ensures
            builder@ == initial(),
            builder.wf(),
    {
        let builder = SvalAny { slot: None, frames: Vec::new(), stack: Stack::new() };
        assert(builder@ =~= initial());
        builder
    }

    /// Takes the finished value out, if the stream has produced one.
    pub fn value(&mut self) -> (r: Option<Any>)
        requires
            old(self).wf(),
        ensures
            tree_of(r) == old(self)@.root,
            final(self)@ == (State {
                slots: old(self)@.slots,
                frames: old(self)@.frames,
                root: None,
            }),
            final(self).wf(),
    {
        self.slot.take()
    }

    /// Hands `val` to the frame that the position names. The stack has just
    /// marked the slot done that `before` still shows waiting.
    fn route(&mut self, position: Position, val: Any, Ghost(before): Ghost<State>)
        requires
            well_formed(before),
            awaits_value(before.slots.last()),
            position == position_of(before.slots.last()),
            old(self)@.slots == with_last(before.slots, mark_done(before.slots.last())),
            old(self)@.frames == before.frames,
            old(self)@.root == before.root,
        ensures
            final(self)@ == deliver(before, val@),
    {
        let ghost n = before.frames.len() as int;
        let ghost frames = self.frames@;
        proof {
            if n > 0 {
                assert(level_ok(before.frames[n - 1], before.slots[n]));
                assert(before.frames[n - 1] == frame_view(frames[n - 1]));
            }
        }
        match position {
            Position::Root => {
                self.slot = Some(val);
            },
            Position::Key => {
                let text = any_to_string(&val);
                match self.frames.pop() {
                    Some(Frame::Mapping { entries, key }) => {
                        self.frames.push(Frame::Mapping { entries, key: Some(text) });
                    },
                    _ => {
                        assert(false);
                    },
                }
            },
            Position::Value => {
                match self.frames.pop() {
                    Some(Frame::Mapping { entries, key: Some(key) }) => {
                        let mut entries = entries;
                        entries.insert(key, val);
                        self.frames.push(Frame::Mapping { entries, key: None });
                    },
                    _ => {
                        assert(false);
                    },
                }
            },
            Position::Elem => {
                match self.frames.pop() {
                    Some(Frame::List { items }) => {
                        let mut items = items;
                        let ghost earlier = items_view(items@);
                        items.push(val);
                        assert(items_view(items@) =~= earlier.push(val@));
                        self.frames.push(Frame::List { items });
                    },
                    _ => {
                        assert(false);
                    },
                }
            },
        }
        assert(self@.frames =~= deliver(before, val@).frames);
        assert(self@ =~= deliver(before, val@));
    }

    /// A complete value arrives: a primitive, or a container handed over
    /// whole. It goes where the position stack says.
    pub fn set(&mut self, val: Any) -> (r: Result<(), ProtocolError>)
        requires
            old(self).wf(),
        ensures
            outcome(r, final(self)@) == step(old(self)@, EventView::Value(val@)),
            r is Err ==> final(self)@ == old(self)@,
            final(self).wf(),
    {
        let ghost before = self@;
        match self.stack.primitive() {
            Ok(pos) => {
                let position = classify(&pos);
                self.route(position, val, Ghost(before));
                proof {
                    lemma_step_well_formed(before, EventView::Value(val@));
                }
                Ok(())
            },
            Err(_) => Err(ProtocolError::Primitive),
        }
    }

    /// A signed integer arrives.
    pub fn integer(&mut self, v: i64) -> (r: Result<(), ProtocolError>)
        requires
            old(self).wf(),
        ensures
            outcome(r, final(self)@) == step(old(self)@, EventView::Value(Tree::Integer(v))),
            r is Err ==> final(self)@ == old(self)@,
            final(self).wf(),
    {
        self.set(Any::Integer(v))
    }

    /// An unsigned integer arrives. Its 64 bits are read as a signed
    /// integer, so that the upper half of the range comes out negative.
    pub fn unsigned(&mut self, v: u64) -> (r: Result<(), ProtocolError>)
        requires
            old(self).wf(),
        ensures
            outcome(r, final(self)@) == step(
                old(self)@,
                EventView::Value(Tree::Integer(reinterpret(v) as i64)),
            ),
            r is Err ==> final(self)@ == old(self)@,
            final(self).wf(),
    {
        let signed: i64 = if v <= 0x7fff_ffff_ffff_ffff {
            v as i64
        } else {
            ((v - 0x8000_0000_0000_0000) as i64) - 0x4000_0000_0000_0000 - 0x4000_0000_0000_0000
        };
        self.set(Any::Integer(signed))
    }

    /// A double arrives: the bits of its binary64 form, and its decimal
    /// text.
    pub fn double(&mut self, bits: u64, text: String) -> (r: Result<(), ProtocolError>)
        requires
            old(self).wf(),
        ensures
            outcome(r, final(self)@) == step(
                old(self)@,
                EventView::Value(Tree::Double { bits, text: text@ }),
            ),
            r is Err ==> final(self)@ == old(self)@,
            final(self).wf(),
    {
        self.set(Any::Double { bits, text })
    }

    /// A truth value arrives.
    pub fn boolean(&mut self, v: bool) -> (r: Result<(), ProtocolError>)
        requires
            old(self).wf(),
        ensures
            outcome(r, final(self)@) == step(old(self)@, EventView::Value(Tree::Boolean(v))),
            r is Err ==> final(self)@ == old(self)@,
            final(self).wf(),
    {
        self.set(Any::Boolean(v))
    }

    /// A piece of text arrives.
    pub fn text(&mut self, v: &str) -> (r: Result<(), ProtocolError>)
        requires
            old(self).wf(),
        ensures
            outcome(r, final(self)@) == step(old(self)@, EventView::Value(Tree::String(v@))),
            r is Err ==> final(self)@ == old(self)@,
            final(self).wf(),
    {
        self.set(Any::String(String::from_str(v)))
    }

    /// A value of any other kind arrives, as the text it was rendered to.
    pub fn fmt(&mut self, rendered: String) -> (r: Result<(), ProtocolError>)
        requires
            old(self).wf(),
        ensures
            outcome(r, final(self)@) == step(
                old(self)@,
                EventView::Value(Tree::String(rendered@)),
            ),
            r is Err ==> final(self)@ == old(self)@,
            final(self).wf(),
    {
        self.set(Any::String(rendered))
    }

    /// Raw bytes arrive.
    pub fn bytes(&mut self, v: Vec<u8>) -> (r: Result<(), ProtocolError>)
        requires
            old(self).wf(),
        ensures
            outcome(r, final(self)@) == step(old(self)@, EventView::Value(Tree::Bytes(v@))),
            r is Err ==> final(self)@ == old(self)@,
            final(self).wf(),
    {
        self.set(Any::Bytes(v))
    }

    /// A map begins. The number of entries to come is a hint that nothing
    /// depends on.
    pub fn map_begin(&mut self, len: Option<usize>) -> (r: Result<(), ProtocolError>)
        requires
            old(self).wf(),
        ensures
            outcome(r, final(self)@) == step(old(self)@, EventView::MapBegin),
            r is Err ==> final(self)@ == old(self)@,
            final(self).wf(),
    {
        let ghost before = self@;
        match self.stack.map_begin() {
            Ok(_) => {
                self.frames.push(Frame::Mapping { entries: AnyMap::new(), key: None });
                proof {
                    assert(self@.frames =~= before.frames.push(
                        FrameView::Mapping { entries: Seq::empty(), key: None },
                    ));
                    assert(self@ =~= step(before, EventView::MapBegin)->Ok_0);
                    lemma_step_well_formed(before, EventView::MapBegin);
                }
                Ok(())
            },
            Err(_) => Err(ProtocolError::MapBegin),
        }
    }

    /// The next value is a key of the innermost map.
    pub fn map_key(&mut self) -> (r: Result<(), ProtocolError>)
        requires
            old(self).wf(),
        ensures
            outcome(r, final(self)@) == step(old(self)@, EventView::MapKey),
            r is Err ==> final(self)@ == old(self)@,
            final(self).wf(),
    {
        let ghost before = self@;
        match self.stack.map_key() {
            Ok(_) => {
                proof {
                    assert(self@ =~= step(before, EventView::MapKey)->Ok_0);
                    lemma_step_well_formed(before, EventView::MapKey);
                }
                Ok(())
            },
            Err(_) => Err(ProtocolError::MapKey),
        }
    }

    /// The next value is the value of the key that came last.
    pub fn map_value(&mut self) -> (r: Result<(), ProtocolError>)
        requires
            old(self).wf(),
        ensures
            outcome(r, final(self)@) == step(old(self)@, EventView::MapValue),
            r is Err ==> final(self)@ == old(self)@,
            final(self).wf(),
    {
        let ghost before = self@;
        match self.stack.map_value() {
            Ok(_) => {
                proof {
                    assert(self@ =~= step(before, EventView::MapValue)->Ok_0);
                    lemma_step_well_formed(before, EventView::MapValue);
                }
                Ok(())
            },
            Err(_) => Err(ProtocolError::MapValue),
        }
    }

    /// The innermost map ends. Finished, it goes where the position stack
    /// says, as any other value does.
    pub fn map_end(&mut self) -> (r: Result<(), ProtocolError>)
        requires
            old(self).wf(),
        ensures
            outcome(r, final(self)@) == step(old(self)@, EventView::MapEnd),
            r is Err ==> final(self)@ == old(self)@,
            final(self).wf(),
    {
        let ghost before = self@;
        match self.stack.map_end() {
            Ok(pos) => {
                self.close(classify(&pos), Ghost(before));
                proof {
                    lemma_step_well_formed(before, EventView::MapEnd);
                }
                Ok(())
            },
            Err(_) => Err(ProtocolError::MapEnd),
        }
    }

    /// A sequence begins. The number of elements to come is a hint that
    /// nothing depends on.
    pub fn seq_begin(&mut self, len: Option<usize>) -> (r: Result<(), ProtocolError>)
        requires
            old(self).wf(),
        ensures
            outcome(r, final(self)@) == step(old(self)@, EventView::SeqBegin),
            r is Err ==> final(self)@ == old(self)@,
            final(self).wf(),
    {
        let ghost before = self@;
        match self.stack.seq_begin() {
            Ok(_) => {
                self.frames.push(Frame::List { items: Vec::new() });
                proof {
                    assert(items_view(Seq::<Any>::empty()) =~= Seq::<Tree>::empty());
                    assert(self@.frames =~= before.frames.push(
                        FrameView::List { items: Seq::empty() },
                    ));
                    assert(self@ =~= step(before, EventView::SeqBegin)->Ok_0);
                    lemma_step_well_formed(before, EventView::SeqBegin);
                }
                Ok(())
            },
            Err(_) => Err(ProtocolError::SeqBegin),
        }
    }

    /// The next value is an element of the innermost sequence.
    pub fn seq_elem(&mut self) -> (r: Result<(), ProtocolError>)
        requires
            old(self).wf(),
        ensures
            outcome(r, final(self)@) == step(old(self)@, EventView::SeqElem),
            r is Err ==> final(self)@ == old(self)@,
            final(self).wf(),
    {
        let ghost before = self@;
        match self.stack.seq_elem() {
            Ok(_) => {
                proof {
                    assert(self@ =~= step(before, EventView::SeqElem)->Ok_0);
                    lemma_step_well_formed(before, EventView::SeqElem);
                }
                Ok(())
            },
            Err(_) => Err(ProtocolError::SeqElem),
        }
    }

    /// The innermost sequence ends. Finished, it goes where the position
    /// stack says, as any other value does.
    pub fn seq_end(&mut self) -> (r: Result<(), ProtocolError>)
        requires
            old(self).wf(),
        ensures
            outcome(r, final(self)@) == step(old(self)@, EventView::SeqEnd),
            r is Err ==> final(self)@ == old(self)@,
            final(self).wf(),
    {
        let ghost before = self@;
        match self.stack.seq_end() {
            Ok(pos) => {
                self.close(classify(&pos), Ghost(before));
                proof {
                    lemma_step_well_formed(before, EventView::SeqEnd);
                }
                Ok(())
            },
            Err(_) => Err(ProtocolError::SeqEnd),
        }
    }

    /// Takes the innermost frame off, whose slot the stack has just taken
    /// off, and hands the finished container to the slot it stood in.
    fn close(&mut self, position: Position, Ghost(before): Ghost<State>)
        requires
            well_formed(before),
            before.frames.len() > 0,
            position == position_of(mark_done(before.slots.drop_last().last())),
            old(self)@.slots == after_end(before.slots),
            old(self)@.frames == before.frames,
            old(self)@.root == before.root,
        ensures
            final(self)@ == deliver(without_top(before), finish(before.frames.last())),
    {
        let ghost inner = without_top(before);
        let ghost n = before.frames.len() as int;
        proof {
            lemma_without_top_well_formed(before);
        }
        let ghost frames = self.frames@;
        let top = self.frames.pop();
        proof {
            assert(before.frames[n - 1] == frame_view(frames[n - 1]));
            assert(self@.frames =~= inner.frames);
        }
        match top {
            Some(Frame::Mapping { entries, key }) => {
                self.route(position, Any::Mapping(entries), Ghost(inner));
            },
            Some(Frame::List { items }) => {
                self.route(position, Any::List(items), Ghost(inner));
            },
            None => {
                assert(false);
            },
        }
    }

    /// One event of a stream arrives.
    pub fn feed(&mut self, event: Event) -> (r: Result<(), ProtocolError>)
        requires
            old(self).wf(),
        ensures
            outcome(r, final(self)@) == step(old(self)@, event@),
            r is Err ==> final(self)@ == old(self)@,
            final(self).wf(),
    {
        match event {
            Event::Value(v) => self.set(v),
            Event::MapBegin => self.map_begin(None),
            Event::MapKey => self.map_key(),
            Event::MapValue => self.map_value(),
            Event::MapEnd => self.map_end(),
            Event::SeqBegin => self.seq_begin(None),
            Event::SeqElem => self.seq_elem(),
            Event::SeqEnd => self.seq_end(),
        }
    }
}

} // verus!
