//! The attributes of one log record: each named value of the record is
//! driven through a builder of its own.

use crate::event::{build, built, events_view, reversed, Event};
use crate::position::ProtocolError;
use crate::protocol::EventView;
use crate::value::{put, AnyMap, Tree};
use vstd::prelude::*;

verus! {

/// A named value whose stream broke the protocol.
#[derive(Debug, PartialEq, Eq)]
pub struct Failure {
    pub name: String,
    pub error: ProtocolError,
}

/// What the named values of one record come to.
#[derive(Debug, PartialEq, Eq)]
pub struct Attributes {
    /// The values that were built, by name.
    pub values: AnyMap,
    /// The values that were not, in the order they came in.
    pub failures: Vec<Failure>,
}

/// The model of the named values of a record.
pub open spec fn named_view(named: Seq<(String, Vec<Event>)>) -> Seq<(Seq<char>, Seq<EventView>)> {
    Seq::new(named.len(), |i: int| (named[i].0@, events_view(named[i].1@)))
}

/// The model of the failures.
pub open spec fn failures_view(failures: Seq<Failure>) -> Seq<(Seq<char>, ProtocolError)> {
    Seq::new(failures.len(), |i: int| (failures[i].name@, failures[i].error))
}

/// The attributes after the first `n` named values: each stream that builds
/// a value binds its name to it, a later one replacing an earlier one of the
/// same name; a stream that builds nothing, or breaks the protocol, binds
/// nothing.
pub open spec fn collected(named: Seq<(Seq<char>, Seq<EventView>)>, n: nat) -> Seq<
    (Seq<char>, Tree),
>
    decreases n,
{
    if n == 0 || n > named.len() {
        Seq::empty()
    } else {
        let earlier = collected(named, (n - 1) as nat);
        match built(named[n - 1].1) {
            Ok(Some(v)) => put(earlier, named[n - 1].0, v),
            _ => earlier,
        }
    }
}

/// The failures among the first `n` named values, in their order: the name
/// and the error of each stream that breaks the protocol.
pub open spec fn rejected(named: Seq<(Seq<char>, Seq<EventView>)>, n: nat) -> Seq<
    (Seq<char>, ProtocolError),
>
    decreases n,
{
    if n == 0 || n > named.len() {
        Seq::empty()
    } else {
        let earlier = rejected(named, (n - 1) as nat);
        match built(named[n - 1].1) {
            Err(e) => earlier.push((named[n - 1].0, e)),
            _ => earlier,
        }
    }
}

/// Builds the attributes of one record from its named values. A value whose
/// stream breaks the protocol is reported and left out; the others are not
/// affected by it.
pub fn collect_attributes(named: Vec<(String, Vec<Event>)>) -> (out: Attributes)
    ensures
        out.values@ == collected(named_view(named@), named@.len()),
        failures_view(out.failures@) == rejected(named_view(named@), named@.len()),
{
    let ghost all = named_view(named@);
    let ghost given = named@;
    let total = named.len();
    let mut rest = reversed(named);
    let mut values = AnyMap::new();
    let mut failures: Vec<Failure> = Vec::new();
    let mut done: usize = 0;
    assert(failures_view(failures@) =~= rejected(all, 0));
    while done < total
        invariant
            done <= total,
            total == given.len(),
            all == named_view(given),
            rest@ == given.reverse().subrange(0, total - done),
            values@ == collected(all, done as nat),
            failures_view(failures@) == rejected(all, done as nat),
        decreases total - done,
    {
        match rest.pop() {
            Some((name, events)) => {
                proof {
                    assert((name, events) == given[done as int]);
                    assert(all[done as int] == (name@, events_view(events@)));
                    assert(rest@ =~= given.reverse().subrange(0, total - done - 1));
                }
                let ghost earlier = failures_view(failures@);
                match build(events) {
                    Ok(Some(value)) => {
                        values.insert(name, value);
                    },
                    Ok(None) => {},
                    Err(error) => {
                        failures.push(Failure { name, error });
                        assert(failures_view(failures@) =~= earlier.push((name@, error)));
                    },
                }
            },
            None => {
                assert(false);
            },
        }
        done += 1;
    }
    Attributes { values, failures }
}

} // verus!
