//! The position stack: which role the next value of a stream plays.
//!
//! The stack itself is `sval::stream::Stack`. What it does is stated here,
//! without proof, over a model of its slots: one slot for the root and one
//! for each container that is open.

use sval::stream::stack::Pos;
use sval::stream::{Error, Stack};
use vstd::prelude::*;

verus! {

/// `sval::stream::Stack`: the position stack.
#[verifier::external_type_specification]
#[verifier::external_body]
pub struct ExStack(Stack);

/// `sval::stream::stack::Pos`: a position that the stack hands out.
#[verifier::external_type_specification]
#[verifier::external_body]
pub struct ExPos(Pos);

/// `sval::stream::Error`: the error of a call that the stack refuses.
#[verifier::external_type_specification]
#[verifier::external_body]
pub struct ExError(Error);

/// The state of one nesting level of a position stack.
pub enum Slot {
    /// The root, before its value.
    Root,
    /// The root, after its value.
    RootDone,
    /// A map without a key yet.
    MapStart,
    /// A map that waits for a key.
    MapKey,
    /// A map that has a key and waits for the value marker.
    MapKeyDone,
    /// A map that waits for a value.
    MapValue,
    /// A map after a complete entry.
    MapValueDone,
    /// A sequence without an element yet.
    SeqStart,
    /// A sequence that waits for an element.
    SeqElem,
    /// A sequence after a complete element.
    SeqElemDone,
}

/// The role that a value plays at the place where it arrives.
#[derive(Clone, Copy, Debug, PartialEq, Eq)]
pub enum Position {
    /// The whole value.
    Root,
    /// A key of the innermost map.
    Key,
    /// A value of the innermost map.
    Value,
    /// An element of the innermost sequence.
    Elem,
}

/// The call that a stream's structure did not allow where it was made.
#[derive(Clone, Copy, Debug, PartialEq, Eq)]
pub enum ProtocolError {
    /// A value where none can begin.
    Primitive,
    /// A map begun where no value can begin.
    MapBegin,
    /// A key marker outside a map, or in a map that waits for something else.
    MapKey,
    /// A value marker that does not follow a key.
    MapValue,
    /// A map ended where none is open, or in the middle of an entry.
    MapEnd,
    /// A sequence begun where no value can begin.
    SeqBegin,
    /// An element marker outside a sequence, or before the last element is
    /// complete.
    SeqElem,
    /// A sequence ended where none is open, or in the middle of an element.
    SeqEnd,
}

/// The slots of a stack: the root's first, the innermost open container's
/// last.
pub uninterp spec fn stack_slots(stack: Stack) -> Seq<Slot>;

/// The slot that a position was taken from.
pub uninterp spec fn pos_slot(pos: Pos) -> Slot;

/// A slot in which a value, primitive or container, may begin.
pub open spec fn awaits_value(slot: Slot) -> bool {
    slot is Root || slot is MapKey || slot is MapValue || slot is SeqElem
}

/// A map's slot in which a key marker or the map's end may follow.
pub open spec fn between_entries(slot: Slot) -> bool {
    slot is MapStart || slot is MapValueDone
}

/// A sequence's slot in which an element marker or the sequence's end may
/// follow.
pub open spec fn between_elems(slot: Slot) -> bool {
    slot is SeqStart || slot is SeqElemDone
}

/// The slot after its value is complete.
pub open spec fn mark_done(slot: Slot) -> Slot {
    match slot {
        Slot::Root => Slot::RootDone,
        Slot::MapKey => Slot::MapKeyDone,
        Slot::MapValue => Slot::MapValueDone,
        Slot::SeqElem => Slot::SeqElemDone,
        other => other,
    }
}

/// The role of a value that arrives in a slot.
pub open spec fn position_of(slot: Slot) -> Position {
    match slot {
        Slot::MapKey | Slot::MapKeyDone => Position::Key,
        Slot::MapValue | Slot::MapValueDone => Position::Value,
        Slot::SeqElem | Slot::SeqElemDone => Position::Elem,
        _ => Position::Root,
    }
}

/// A sequence with its last item replaced.
pub open spec fn with_last<T>(s: Seq<T>, last: T) -> Seq<T> {
    s.drop_last().push(last)
}

/// The slots after the innermost container has ended: its slot is gone, and
/// the slot it stood in is done.
pub open spec fn after_end(slots: Seq<Slot>) -> Seq<Slot> {
    with_last(slots.drop_last(), mark_done(slots.drop_last().last()))
}

/// `Stack::new`: a stack that holds the root slot alone.
pub assume_specification[ Stack::new ]() -> (stack: Stack)
    ensures
        stack_slots(stack) == seq![Slot::Root],
;

/// `Stack::primitive`: accepted where a value may begin. The innermost slot
/// is then done, and the position returned is taken from it. A stack that
/// refuses is left as it was.
pub assume_specification[ Stack::primitive ](stack: &mut Stack) -> (r: Result<Pos, Error>)
    ensures
        r is Ok <==> awaits_value(stack_slots(*old(stack)).last()),
        r is Ok ==> stack_slots(*final(stack)) == with_last(
            stack_slots(*old(stack)),
            mark_done(stack_slots(*old(stack)).last()),
        ),
        r is Ok ==> pos_slot(r->Ok_0) == mark_done(stack_slots(*old(stack)).last()),
        r is Err ==> stack_slots(*final(stack)) == stack_slots(*old(stack)),
;

/// `Stack::map_begin`: accepted where a value may begin. A slot for the new
/// map is then the innermost.
pub assume_specification[ Stack::map_begin ](stack: &mut Stack) -> (r: Result<Pos, Error>)
    ensures
        r is Ok <==> awaits_value(stack_slots(*old(stack)).last()),
        r is Ok ==> stack_slots(*final(stack)) == stack_slots(*old(stack)).push(Slot::MapStart),
        r is Err ==> stack_slots(*final(stack)) == stack_slots(*old(stack)),
;

/// `Stack::map_key`: accepted in a map between two entries, which then
/// waits for a key.
pub assume_specification[ Stack::map_key ](stack: &mut Stack) -> (r: Result<Pos, Error>)
    ensures
        r is Ok <==> between_entries(stack_slots(*old(stack)).last()),
        r is Ok ==> stack_slots(*final(stack)) == with_last(stack_slots(*old(stack)), Slot::MapKey),
        r is Err ==> stack_slots(*final(stack)) == stack_slots(*old(stack)),
;

/// `Stack::map_value`: accepted in a map whose key is complete, which then
/// waits for a value.
pub assume_specification[ Stack::map_value ](stack: &mut Stack) -> (r: Result<Pos, Error>)
    ensures
        r is Ok <==> stack_slots(*old(stack)).last() is MapKeyDone,
        r is Ok ==> stack_slots(*final(stack)) == with_last(
            stack_slots(*old(stack)),
            Slot::MapValue,
        ),
        r is Err ==> stack_slots(*final(stack)) == stack_slots(*old(stack)),
;

/// `Stack::map_end`: accepted in a map between two entries. The map's slot
/// is then gone and the slot it stood in is done; the position returned is
/// taken from that slot.
pub assume_specification[ Stack::map_end ](stack: &mut Stack) -> (r: Result<Pos, Error>)
    ensures
        r is Ok <==> between_entries(stack_slots(*old(stack)).last()),
        r is Ok ==> stack_slots(*final(stack)) == after_end(stack_slots(*old(stack))),
        r is Ok ==> pos_slot(r->Ok_0) == after_end(stack_slots(*old(stack))).last(),
        r is Err ==> stack_slots(*final(stack)) == stack_slots(*old(stack)),
;

/// `Stack::seq_begin`: accepted where a value may begin. A slot for the new
/// sequence is then the innermost.
pub assume_specification[ Stack::seq_begin ](stack: &mut Stack) -> (r: Result<Pos, Error>)
    ensures
        r is Ok <==> awaits_value(stack_slots(*old(stack)).last()),
        r is Ok ==> stack_slots(*final(stack)) == stack_slots(*old(stack)).push(Slot::SeqStart),
        r is Err ==> stack_slots(*final(stack)) == stack_slots(*old(stack)),
;

/// `Stack::seq_elem`: accepted in a sequence between two elements, which
/// then waits for an element.
pub assume_specification[ Stack::seq_elem ](stack: &mut Stack) -> (r: Result<Pos, Error>)
    ensures
        r is Ok <==> between_elems(stack_slots(*old(stack)).last()),
        r is Ok ==> stack_slots(*final(stack)) == with_last(
            stack_slots(*old(stack)),
            Slot::SeqElem,
        ),
        r is Err ==> stack_slots(*final(stack)) == stack_slots(*old(stack)),
;

/// `Stack::seq_end`: accepted in a sequence between two elements. The
/// sequence's slot is then gone and the slot it stood in is done; the
/// position returned is taken from that slot.
pub assume_specification[ Stack::seq_end ](stack: &mut Stack) -> (r: Result<Pos, Error>)
    ensures
        r is Ok <==> between_elems(stack_slots(*old(stack)).last()),
        r is Ok ==> stack_slots(*final(stack)) == after_end(stack_slots(*old(stack))),
        r is Ok ==> pos_slot(r->Ok_0) == after_end(stack_slots(*old(stack))).last(),
        r is Err ==> stack_slots(*final(stack)) == stack_slots(*old(stack)),
;

/// `Pos::is_key`: the position is in a map that waits for a key or has
/// just got it.
pub assume_specification[ Pos::is_key ](pos: &Pos) -> (b: bool)
    ensures
        b == (pos_slot(*pos) is MapKey || pos_slot(*pos) is MapKeyDone),
;

/// `Pos::is_value`: the position is in a map that waits for a value or has
/// just got it.
pub assume_specification[ Pos::is_value ](pos: &Pos) -> (b: bool)
    ensures
        b == (pos_slot(*pos) is MapValue || pos_slot(*pos) is MapValueDone),
;

/// `Pos::is_elem`: the position is in a sequence that waits for an element
/// or has just got it.
pub assume_specification[ Pos::is_elem ](pos: &Pos) -> (b: bool)
    ensures
        b == (pos_slot(*pos) is SeqElem || pos_slot(*pos) is SeqElemDone),
;

/// The role of a value that arrives at `pos`.
pub fn classify(pos: &Pos) -> (p: Position)
    ensures
        p == position_of(pos_slot(*pos)),
{
    if pos.is_key() {
        Position::Key
    } else if pos.is_value() {
        Position::Value
    } else if pos.is_elem() {
        Position::Elem
    } else {
        Position::Root
    }
}

} // verus!
