//! What holds of mappings and of the builder as a whole: a mapping is
//! determined by what it binds, and a stream that spells a value tree out
//! builds that tree.

use crate::position::{awaits_value, ProtocolError, Slot};
use crate::protocol::{
    deliver, initial, lemma_run_well_formed, lemma_step_well_formed, run, step, well_formed,
    without_top, EventView, FrameView, State,
};
use crate::event::{build_view, built};
use crate::text::text_of;
use crate::value::Any;
use crate::value::{
    key_lt, lemma_key_lt_irreflexive, lemma_key_lt_total, lemma_key_lt_transitive,
    lemma_put_sorted, lemma_rank_bounds, lemma_rank_is, lookup, put, rank, sorted, Tree,
};
use vstd::prelude::*;

verus! {

/// After `key` is bound, its entry stands where the key ranked before.
pub proof fn lemma_put_rank(entries: Seq<(Seq<char>, Tree)>, key: Seq<char>, value: Tree)
    ensures
        rank(put(entries, key, value), key) == rank(entries, key),
        0 <= rank(entries, key) < put(entries, key, value).len(),
        put(entries, key, value)[rank(entries, key)] == (key, value),
{
    let i = rank(entries, key);
    let out = put(entries, key, value);
    lemma_rank_bounds(entries, key);
    lemma_key_lt_irreflexive(key);
    assert forall|j: int| 0 <= j < i implies #[trigger] key_lt(out[j].0, key) by {
        assert(out[j] == entries[j]);
        assert(key_lt(entries[j].0, key));
    }
    lemma_rank_is(out, key, i);
}

/// A key is bound to the value that was written last.
pub proof fn lemma_lookup_put_same(entries: Seq<(Seq<char>, Tree)>, key: Seq<char>, value: Tree)
    ensures
        lookup(put(entries, key, value), key) == Some(value),
{
    lemma_put_rank(entries, key, value);
}

/// Last write wins: of two values written to one key, only the second is
/// left, and the mapping is as if the first had never been written.
pub proof fn lemma_put_twice(
    entries: Seq<(Seq<char>, Tree)>,
    key: Seq<char>,
    first: Tree,
    second: Tree,
)
    ensures
        put(put(entries, key, first), key, second) == put(entries, key, second),
{
    lemma_put_rank(entries, key, first);
    lemma_rank_bounds(entries, key);
    assert(put(put(entries, key, first), key, second) =~= put(entries, key, second));
}

/// Binding one key leaves what every other key is bound to as it was.
pub proof fn lemma_lookup_put_other(
    entries: Seq<(Seq<char>, Tree)>,
    key: Seq<char>,
    value: Tree,
    other: Seq<char>,
)
    requires
        other != key,
    ensures
        lookup(put(entries, key, value), other) == lookup(entries, other),
{
    let i = rank(entries, key);
    let r = rank(entries, other);
    let out = put(entries, key, value);
    lemma_rank_bounds(entries, key);
    lemma_rank_bounds(entries, other);
    lemma_key_lt_total(key, other);
    lemma_key_lt_irreflexive(key);
    lemma_key_lt_irreflexive(other);
    let replaced = i < entries.len() && entries[i].0 == key;
    if key_lt(key, other) {
        if r < i {
            assert(key_lt(entries[r].0, key));
            lemma_key_lt_transitive(entries[r].0, key, other);
        }
        if replaced {
            assert forall|j: int| 0 <= j < r implies #[trigger] key_lt(out[j].0, other) by {
                assert(out[j].0 == entries[j].0);
                assert(key_lt(entries[j].0, other));
            }
            lemma_rank_is(out, other, r);
        } else {
            assert forall|j: int| 0 <= j < r + 1 implies #[trigger] key_lt(out[j].0, other) by {
                if j < i {
                    assert(key_lt(entries[j].0, other));
                } else if j > i {
                    assert(out[j] == entries[j - 1]);
                    assert(key_lt(entries[j - 1].0, other));
                }
            }
            if r < entries.len() {
                assert(out[r + 1] == entries[r]);
            }
            lemma_rank_is(out, other, r + 1);
        }
    } else {
        if key_lt(key, other) {
            lemma_key_lt_transitive(key, other, key);
        }
        if i < r {
            assert(key_lt(entries[i].0, other));
            lemma_key_lt_total(entries[i].0, key);
            lemma_key_lt_transitive(entries[i].0, other, key);
        }
        assert forall|j: int| 0 <= j < r implies #[trigger] key_lt(out[j].0, other) by {
            assert(out[j] == entries[j]);
            assert(key_lt(entries[j].0, other));
        }
        if r < i {
            assert(out[r] == entries[r]);
        }
        lemma_rank_is(out, other, r);
        if r == i && r < entries.len() && entries[r].0 == other {
            assert(key_lt(entries[i].0, key));
        }
    }
}

/// In sorted entries each key ranks where its entry stands.
pub proof fn lemma_rank_of_member(entries: Seq<(Seq<char>, Tree)>, i: int)
    requires
        sorted(entries),
        0 <= i < entries.len(),
    ensures
        rank(entries, entries[i].0) == i,
        lookup(entries, entries[i].0) == Some(entries[i].1),
{
    lemma_key_lt_irreflexive(entries[i].0);
    assert forall|j: int| 0 <= j < i implies #[trigger] key_lt(entries[j].0, entries[i].0) by {
    }
    lemma_rank_is(entries, entries[i].0, i);
}

proof fn lemma_same_prefix(a: Seq<(Seq<char>, Tree)>, b: Seq<(Seq<char>, Tree)>, n: nat)
    requires
        sorted(a),
        sorted(b),
        forall|k: Seq<char>| lookup(a, k) == lookup(b, k),
        n <= a.len(),
    ensures
        n <= b.len(),
        a.take(n as int) == b.take(n as int),
    decreases n,
{
    if n == 0 {
        assert(a.take(0) =~= b.take(0));
    } else {
        let m = (n - 1) as int;
        lemma_same_prefix(a, b, m as nat);
        let k = a[m].0;
        lemma_rank_of_member(a, m);
        assert(lookup(b, k) == Some(a[m].1));
        let rb = rank(b, k);
        lemma_rank_bounds(b, k);
        if rb < m {
            assert(b[rb] == b.take(m)[rb]);
            assert(a[rb] == a.take(m)[rb]);
            assert(key_lt(a[rb].0, a[m].0));
        }
        if rb > m {
            let other = b[m].0;
            assert(key_lt(b[m].0, k));
            lemma_rank_of_member(b, m);
            assert(lookup(a, other) == Some(b[m].1));
            let ra = rank(a, other);
            lemma_rank_bounds(a, other);
            lemma_key_lt_irreflexive(other);
            if ra == m {
            } else if ra > m {
                assert(key_lt(a[m].0, a[ra].0));
                lemma_key_lt_transitive(other, k, other);
            } else {
                assert(a[ra] == a.take(m)[ra]);
                assert(b[ra] == b.take(m)[ra]);
                assert(key_lt(b[ra].0, b[m].0));
            }
        }
        assert(rb == m);
        assert(b[m] == a[m]);
        assert(a.take(n as int) =~= a.take(m).push(a[m]));
        assert(b.take(n as int) =~= b.take(m).push(b[m]));
    }
}

/// Sorted entries are determined by what they bind: two mappings that bind
/// the same keys to the same values have the same entries in the same
/// order, however they came about.
pub proof fn lemma_sorted_unique(a: Seq<(Seq<char>, Tree)>, b: Seq<(Seq<char>, Tree)>)
    requires
        sorted(a),
        sorted(b),
        forall|k: Seq<char>| lookup(a, k) == lookup(b, k),
    ensures
        a == b,
{
    lemma_same_prefix(a, b, a.len());
    lemma_same_prefix(b, a, b.len());
    assert(a.take(a.len() as int) =~= a);
    assert(b.take(b.len() as int) =~= b);
}

/// The order in which two different keys are bound makes no difference.
pub proof fn lemma_put_commutes(
    entries: Seq<(Seq<char>, Tree)>,
    k1: Seq<char>,
    v1: Tree,
    k2: Seq<char>,
    v2: Tree,
)
    requires
        sorted(entries),
        k1 != k2,
    ensures
        put(put(entries, k1, v1), k2, v2) == put(put(entries, k2, v2), k1, v1),
{
    let a = put(put(entries, k1, v1), k2, v2);
    let b = put(put(entries, k2, v2), k1, v1);
    lemma_put_sorted(entries, k1, v1);
    lemma_put_sorted(put(entries, k1, v1), k2, v2);
    lemma_put_sorted(entries, k2, v2);
    lemma_put_sorted(put(entries, k2, v2), k1, v1);
    assert forall|k: Seq<char>| lookup(a, k) == lookup(b, k) by {
        if k == k2 {
            lemma_lookup_put_same(put(entries, k1, v1), k2, v2);
            lemma_lookup_put_other(put(entries, k2, v2), k1, v1, k2);
            lemma_lookup_put_same(entries, k2, v2);
        } else if k == k1 {
            lemma_lookup_put_other(put(entries, k1, v1), k2, v2, k1);
            lemma_lookup_put_same(entries, k1, v1);
            lemma_lookup_put_same(put(entries, k2, v2), k1, v1);
        } else {
            lemma_lookup_put_other(put(entries, k1, v1), k2, v2, k);
            lemma_lookup_put_other(entries, k1, v1, k);
            lemma_lookup_put_other(put(entries, k2, v2), k1, v1, k);
            lemma_lookup_put_other(entries, k2, v2, k);
        }
    }
    lemma_sorted_unique(a, b);
}

/// The text of a mapping does not depend on the order in which its keys were
/// bound.
pub proof fn lemma_text_of_mapping_stable(
    entries: Seq<(Seq<char>, Tree)>,
    k1: Seq<char>,
    v1: Tree,
    k2: Seq<char>,
    v2: Tree,
)
    requires
        sorted(entries),
        k1 != k2,
    ensures
        text_of(Tree::Mapping(put(put(entries, k1, v1), k2, v2))) == text_of(
            Tree::Mapping(put(put(entries, k2, v2), k1, v1)),
        ),
{
    lemma_put_commutes(entries, k1, v1, k2, v2);
}

/// What `build` returns is decided by the events alone: two runs on the same
/// stream give the same tree, or the same error.
pub proof fn lemma_build_repeats(
    events: Seq<EventView>,
    first: Result<Option<Any>, ProtocolError>,
    second: Result<Option<Any>, ProtocolError>,
)
    requires
        build_view(first) == built(events),
        build_view(second) == built(events),
    ensures
        build_view(first) == build_view(second),
{
}

/// Every mapping in the tree has its entries in key order.
pub open spec fn canonical(t: Tree) -> bool
    decreases t,
{
    match t {
        Tree::List(items) => forall|i: int| 0 <= i < items.len() ==> canonical(#[trigger] items[i]),
        Tree::Mapping(entries) => sorted(entries) && forall|i: int|
            0 <= i < entries.len() ==> canonical((#[trigger] entries[i]).1),
        _ => true,
    }
}

/// The events of the first `n` items of a sequence: for each an element
/// marker, then the item spelt out.
pub open spec fn item_events(items: Seq<Tree>, n: nat) -> Seq<EventView>
    decreases items, n,
{
    if n == 0 || n > items.len() {
        Seq::empty()
    } else {
        item_events(items, (n - 1) as nat) + seq![EventView::SeqElem] + events_of(items[n - 1])
    }
}

/// The events of the first `n` entries of a map: for each a key marker, the
/// key as text, a value marker, then the value spelt out.
pub open spec fn entry_events(entries: Seq<(Seq<char>, Tree)>, n: nat) -> Seq<EventView>
    decreases entries, n,
{
    if n == 0 || n > entries.len() {
        Seq::empty()
    } else {
        entry_events(entries, (n - 1) as nat) + seq![
            EventView::MapKey,
            EventView::Value(Tree::String(entries[n - 1].0)),
            EventView::MapValue,
        ] + events_of(entries[n - 1].1)
    }
}

/// A value tree spelt out as a stream: a primitive as itself, a container as
/// its begin and end with its parts, spelt out, between them.
pub open spec fn events_of(t: Tree) -> Seq<EventView>
    decreases t,
{
    match t {
        Tree::List(items) => seq![EventView::SeqBegin] + item_events(items, items.len()) + seq![
            EventView::SeqEnd,
        ],
        Tree::Mapping(entries) => seq![EventView::MapBegin] + entry_events(entries, entries.len())
            + seq![EventView::MapEnd],
        _ => seq![EventView::Value(t)],
    }
}

/// The state with one more sequence open, which has `items` so far.
pub open spec fn open_list(st: State, items: Seq<Tree>) -> State {
    State {
        slots: st.slots.push(
            if items.len() == 0 {
                Slot::SeqStart
            } else {
                Slot::SeqElemDone
            },
        ),
        frames: st.frames.push(FrameView::List { items }),
        root: st.root,
    }
}

/// The state with one more map open, which has `entries` so far.
pub open spec fn open_map(st: State, entries: Seq<(Seq<char>, Tree)>) -> State {
    State {
        slots: st.slots.push(
            if entries.len() == 0 {
                Slot::MapStart
            } else {
                Slot::MapValueDone
            },
        ),
        frames: st.frames.push(FrameView::Mapping { entries, key: None }),
        root: st.root,
    }
}

/// A stream of one event does what the event does.
pub proof fn lemma_run_one(st: State, event: EventView)
    ensures
        run(st, seq![event]) == step(st, event),
{
    reveal_with_fuel(run, 2);
    assert(seq![event].drop_first() =~= Seq::<EventView>::empty());
}

/// A stream in two parts does what the second part does to the state that
/// the first part leaves; an error in the first part is the error of the
/// whole.
pub proof fn lemma_run_concat(st: State, first: Seq<EventView>, second: Seq<EventView>)
    ensures
        run(st, first + second) == match run(st, first) {
            Ok(mid) => run(mid, second),
            Err(e) => Err(e),
        },
    decreases first.len(),
{
    if first.len() == 0 {
        assert(first + second =~= second);
    } else {
        assert((first + second)[0] == first[0]);
        assert((first + second).drop_first() =~= first.drop_first() + second);
        match step(st, first[0]) {
            Ok(next) => {
                lemma_run_concat(next, first.drop_first(), second);
            },
            Err(_) => {},
        }
    }
}

/// The begin of a sequence and its first `n` items, spelt out, leave the
/// sequence open with those items.
pub proof fn lemma_items_build(st: State, items: Seq<Tree>, n: nat)
    requires
        well_formed(st),
        awaits_value(st.slots.last()),
        canonical(Tree::List(items)),
        n <= items.len(),
    ensures
        run(st, seq![EventView::SeqBegin] + item_events(items, n)) == Ok::<State, ProtocolError>(
            open_list(st, items.take(n as int)),
        ),
    decreases items, n, 0nat,
{
    let begin = seq![EventView::SeqBegin];
    if n == 0 {
        assert(begin + item_events(items, 0) =~= begin);
        lemma_run_one(st, EventView::SeqBegin);
        assert(items.take(0) =~= Seq::<Tree>::empty());
        assert(step(st, EventView::SeqBegin)->Ok_0 =~= open_list(st, items.take(0)));
    } else {
        let m = (n - 1) as nat;
        let x = items[n - 1];
        let prefix = begin + item_events(items, m);
        let marker = seq![EventView::SeqElem];
        lemma_items_build(st, items, m);
        let s1 = open_list(st, items.take(m as int));
        lemma_run_well_formed(st, prefix);
        assert(begin + item_events(items, n) =~= (prefix + marker) + events_of(x));
        lemma_run_concat(st, prefix + marker, events_of(x));
        lemma_run_concat(st, prefix, marker);
        lemma_run_one(s1, EventView::SeqElem);
        let s2 = step(s1, EventView::SeqElem)->Ok_0;
        lemma_step_well_formed(s1, EventView::SeqElem);
        assert(canonical(x)) by {
            let whole = Tree::List(items);
            assert(whole->List_0 == items);
            assert(forall|i: int| 0 <= i < items.len() ==> canonical(#[trigger] items[i]));
        }
        lemma_spelt_out(s2, x);
        let s3 = deliver(s2, x);
        assert(items.take(m as int).push(x) =~= items.take(n as int));
        assert(s3.slots =~= open_list(st, items.take(n as int)).slots);
        assert(s3.frames =~= open_list(st, items.take(n as int)).frames);
        assert(s3 =~= open_list(st, items.take(n as int)));
    }
}

/// The begin of a map and its first `n` entries, spelt out, leave the map
/// open with those entries.
pub proof fn lemma_entries_build(st: State, entries: Seq<(Seq<char>, Tree)>, n: nat)
    requires
        well_formed(st),
        awaits_value(st.slots.last()),
        canonical(Tree::Mapping(entries)),
        n <= entries.len(),
    ensures
        run(st, seq![EventView::MapBegin] + entry_events(entries, n)) == Ok::<State, ProtocolError>(
            open_map(st, entries.take(n as int)),
        ),
    decreases entries, n, 0nat,
{
    let begin = seq![EventView::MapBegin];
    if n == 0 {
        assert(begin + entry_events(entries, 0) =~= begin);
        lemma_run_one(st, EventView::MapBegin);
        assert(entries.take(0) =~= Seq::<(Seq<char>, Tree)>::empty());
        assert(step(st, EventView::MapBegin)->Ok_0 =~= open_map(st, entries.take(0)));
    } else {
        let m = (n - 1) as nat;
        let k = entries[n - 1].0;
        let v = entries[n - 1].1;
        let earlier = entries.take(m as int);
        let prefix = begin + entry_events(entries, m);
        let key_marker = seq![EventView::MapKey];
        let key = seq![EventView::Value(Tree::String(k))];
        let value_marker = seq![EventView::MapValue];
        lemma_entries_build(st, entries, m);
        let s1 = open_map(st, earlier);
        lemma_run_well_formed(st, prefix);
        assert(seq![
            EventView::MapKey,
            EventView::Value(Tree::String(k)),
            EventView::MapValue,
        ] =~= key_marker + key + value_marker);
        assert(begin + entry_events(entries, n) =~= (((prefix + key_marker) + key)
            + value_marker) + events_of(v));
        lemma_run_concat(st, ((prefix + key_marker) + key) + value_marker, events_of(v));
        lemma_run_concat(st, (prefix + key_marker) + key, value_marker);
        lemma_run_concat(st, prefix + key_marker, key);
        lemma_run_concat(st, prefix, key_marker);
        lemma_run_one(s1, EventView::MapKey);
        let s2 = step(s1, EventView::MapKey)->Ok_0;
        lemma_step_well_formed(s1, EventView::MapKey);
        lemma_run_one(s2, EventView::Value(Tree::String(k)));
        let s3 = step(s2, EventView::Value(Tree::String(k)))->Ok_0;
        lemma_step_well_formed(s2, EventView::Value(Tree::String(k)));
        assert(s3.frames.last() == FrameView::Mapping { entries: earlier, key: Some(k) });
        lemma_run_one(s3, EventView::MapValue);
        let s4 = step(s3, EventView::MapValue)->Ok_0;
        lemma_step_well_formed(s3, EventView::MapValue);
        assert(canonical(v));
        lemma_spelt_out(s4, v);
        let s5 = deliver(s4, v);
        assert(put(earlier, k, v) =~= entries.take(n as int)) by {
            assert forall|j: int| 0 <= j < m implies #[trigger] key_lt(
                earlier[j].0,
                k,
            ) by {
                assert(key_lt(entries[j].0, entries[n - 1].0));
            }
            lemma_rank_is(earlier, k, m as int);
            assert(earlier.insert(m as int, (k, v)) =~= entries.take(n as int));
        }
        assert(s5.slots =~= open_map(st, entries.take(n as int)).slots);
        assert(s5.frames =~= open_map(st, entries.take(n as int)).frames);
        assert(s5 =~= open_map(st, entries.take(n as int)));
    }
}

/// Each container that a stream begins and ends becomes one node, whose
/// parts are what the stream holds between the begin and the end: a value
/// tree spelt out as a stream, its mappings in key order, arrives as that
/// tree, in whatever place the stream stands.
pub proof fn lemma_spelt_out(st: State, t: Tree)
    requires
        well_formed(st),
        awaits_value(st.slots.last()),
        canonical(t),
    ensures
        run(st, events_of(t)) == Ok::<State, ProtocolError>(deliver(st, t)),
    decreases t, 0nat, 1nat,
{
    match t {
        Tree::List(items) => {
            let head = seq![EventView::SeqBegin] + item_events(items, items.len());
            lemma_items_build(st, items, items.len());
            lemma_run_concat(st, head, seq![EventView::SeqEnd]);
            assert(items.take(items.len() as int) =~= items);
            let open = open_list(st, items);
            lemma_run_one(open, EventView::SeqEnd);
            assert(without_top(open) =~= st);
        },
        Tree::Mapping(entries) => {
            let head = seq![EventView::MapBegin] + entry_events(entries, entries.len());
            lemma_entries_build(st, entries, entries.len());
            lemma_run_concat(st, head, seq![EventView::MapEnd]);
            assert(entries.take(entries.len() as int) =~= entries);
            let open = open_map(st, entries);
            lemma_run_one(open, EventView::MapEnd);
            assert(without_top(open) =~= st);
        },
        _ => {
            lemma_run_one(st, EventView::Value(t));
        },
    }
}

/// A value tree spelt out as a stream builds that tree.
pub proof fn lemma_round_trip(t: Tree)
    requires
        canonical(t),
    ensures
        built(events_of(t)) == Ok::<Option<Tree>, ProtocolError>(Some(t)),
{
    lemma_spelt_out(initial(), t);
}

} // verus!
