//! The canonical text of a value tree, as used for the keys of a mapping.

use crate::value::{items_view, Any, Tree};
use vstd::prelude::*;
use vstd::string::*;

verus! {

/// The character of a decimal digit.
pub open spec fn digit(d: int) -> char {
    if d == 0 {
        '0'
    } else if d == 1 {
        '1'
    } else if d == 2 {
        '2'
    } else if d == 3 {
        '3'
    } else if d == 4 {
        '4'
    } else if d == 5 {
        '5'
    } else if d == 6 {
        '6'
    } else if d == 7 {
        '7'
    } else if d == 8 {
        '8'
    } else {
        '9'
    }
}

/// The character of a hexadecimal digit, in lower case.
pub open spec fn hex_digit(d: int) -> char {
    if d < 10 {
        digit(d)
    } else if d == 10 {
        'a'
    } else if d == 11 {
        'b'
    } else if d == 12 {
        'c'
    } else if d == 13 {
        'd'
    } else if d == 14 {
        'e'
    } else {
        'f'
    }
}

/// The decimal digits of a natural number, without leading zeros.
pub open spec fn decimal_nat(n: nat) -> Seq<char>
    decreases n,
{
    if n < 10 {
        seq![digit(n as int)]
    } else {
        decimal_nat(n / 10).push(digit((n % 10) as int))
    }
}

/// The decimal text of an integer: a minus sign where it is negative, then
/// its digits.
pub open spec fn decimal(v: int) -> Seq<char> {
    if v < 0 {
        seq!['-'] + decimal_nat((-v) as nat)
    } else {
        decimal_nat(v as nat)
    }
}

/// The text of a truth value.
pub open spec fn boolean_text(b: bool) -> Seq<char> {
    if b {
        seq!['t', 'r', 'u', 'e']
    } else {
        seq!['f', 'a', 'l', 's', 'e']
    }
}

/// Two lower-case hexadecimal digits for each byte, the high half first.
pub open spec fn hex_text(bytes: Seq<u8>) -> Seq<char> {
    Seq::new(
        2 * bytes.len(),
        |i: int|
            if i % 2 == 0 {
                hex_digit(bytes[i / 2] as int / 16)
            } else {
                hex_digit(bytes[i / 2] as int % 16)
            },
    )
}

/// The texts of the first `n` items, with one space between each two
/// neighbours and none before the first or after the last.
pub open spec fn list_text(items: Seq<Tree>, n: nat) -> Seq<char>
    decreases items, n,
{
    if n == 0 || n > items.len() {
        Seq::empty()
    } else if n == 1 {
        text_of(items[0])
    } else {
        list_text(items, (n - 1) as nat) + seq![' '] + text_of(items[n - 1])
    }
}

/// The first `n` entries, each as its key, a colon and the text of its
/// value, with nothing between two entries.
pub open spec fn entries_text(entries: Seq<(Seq<char>, Tree)>, n: nat) -> Seq<char>
    decreases entries, n,
{
    if n == 0 || n > entries.len() {
        Seq::empty()
    } else {
        entries_text(entries, (n - 1) as nat) + entries[n - 1].0 + seq![':'] + text_of(
            entries[n - 1].1,
        )
    }
}

/// The canonical text of a value tree.
///
/// Integers and truth values are written out, a double by the text it
/// carries, a string as it is, bytes in hexadecimal. A list stands in square
/// brackets, its items separated by single spaces; a mapping in braces with
/// a space inside each, its entries in the order they are held in.
pub open spec fn text_of(t: Tree) -> Seq<char>
    decreases t,
{
    match t {
        Tree::Integer(v) => decimal(v as int),
        Tree::Double { bits, text } => text,
        Tree::Boolean(b) => boolean_text(b),
        Tree::String(s) => s,
        Tree::Bytes(bytes) => hex_text(bytes),
        Tree::List(items) => seq!['['] + list_text(items, items.len()) + seq![']'],
        Tree::Mapping(entries) => seq!['{', ' '] + entries_text(entries, entries.len()) + seq![
            ' ',
            '}',
        ],
    }
}

/// `hex::encode`: the bytes as lower-case hexadecimal text, two digits for
/// each byte.
#[verifier::external_body]
fn hex_encode(bytes: &Vec<u8>) -> (s: String)
    ensures
        s@ == hex_text(bytes@),
{
    hex::encode(bytes)
}

fn digit_str(d: u64) -> (s: &'static str)
    requires
        d < 10,
    ensures
        s@ == seq![digit(d as int)],
{
    proof {
        reveal_strlit("0");
        reveal_strlit("1");
        reveal_strlit("2");
        reveal_strlit("3");
        reveal_strlit("4");
        reveal_strlit("5");
        reveal_strlit("6");
        reveal_strlit("7");
        reveal_strlit("8");
        reveal_strlit("9");
    }
    let s = if d == 0 {
        "0"
    } else if d == 1 {
        "1"
    } else if d == 2 {
        "2"
    } else if d == 3 {
        "3"
    } else if d == 4 {
        "4"
    } else if d == 5 {
        "5"
    } else if d == 6 {
        "6"
    } else if d == 7 {
        "7"
    } else if d == 8 {
        "8"
    } else {
        "9"
    };
    assert(s@ =~= seq![digit(d as int)]);
    s
}

fn push_decimal(out: &mut String, n: u64)
    ensures
        final(out)@ == old(out)@ + decimal_nat(n as nat),
    decreases n,
{
    if n >= 10 {
        push_decimal(out, n / 10);
    }
    out.append(digit_str(n % 10));
    assert(out@ =~= old(out)@ + decimal_nat(n as nat));
}

/// The decimal text of an integer.
pub fn integer_to_string(v: i64) -> (s: String)
    ensures
        s@ == decimal(v as int),
{
    let mut out = String::new();
    if v < 0 {
        proof {
            reveal_strlit("-");
        }
        out.append("-");
        let magnitude: u64 = (0 - (v as i128)) as u64;
        push_decimal(&mut out, magnitude);
    } else {
        push_decimal(&mut out, v as u64);
    }
    assert(out@ =~= decimal(v as int));
    out
}

/// The canonical text of a value tree.
#[verifier::loop_isolation(false)]
pub fn any_to_string(val: &Any) -> (s: String)
    ensures
        s@ == text_of(val@),
    decreases val,
{
    proof {
        reveal_strlit("true");
        reveal_strlit("false");
        reveal_strlit("[");
        reveal_strlit("]");
        reveal_strlit(" ");
        reveal_strlit("{ ");
        reveal_strlit(" }");
        reveal_strlit(":");
    }
    match val {
        Any::Integer(v) => integer_to_string(*v),
        Any::Double { text, .. } => text.clone(),
        Any::String(v) => v.clone(),
        Any::Boolean(b) => {
            let s = if *b {
                String::from_str("true")
            } else {
                String::from_str("false")
            };
            assert(s@ =~= boolean_text(*b));
            s
        },
        Any::Bytes(bytes) => hex_encode(bytes),
        Any::List(list) => {
            let ghost items = items_view(list@);
            let mut builder = String::from_str("[");
            let mut i: usize = 0;
            assert(builder@ =~= seq!['['] + list_text(items, 0));
            while i < list.len()
                invariant
                    i <= list@.len(),
                    builder@ == seq!['['] + list_text(items, i as nat),
                decreases list@.len() - i,
            {
                if i > 0 {
                    builder.append(" ");
                }
                let item = any_to_string(&list[i]);
                builder.append(item.as_str());
                i += 1;
                assert(builder@ =~= seq!['['] + list_text(items, i as nat));
            }
            builder.append("]");
            assert(builder@ =~= text_of(val@));
            builder
        },
        Any::Mapping(map) => {
            let ghost entries = map@;
            let mut builder = String::from_str("{ ");
            let mut i: usize = 0;
            assert(builder@ =~= seq!['{', ' '] + entries_text(entries, 0));
            while i < map.len()
                invariant
                    i <= map@.len(),
                    builder@ == seq!['{', ' '] + entries_text(entries, i as nat),
                decreases map@.len() - i,
            {
                builder.append(map.key(i).as_str());
                builder.append(":");
                let item = any_to_string(map.value(i));
                builder.append(item.as_str());
                i += 1;
                assert(builder@ =~= seq!['{', ' '] + entries_text(entries, i as nat));
            }
            builder.append(" }");
            assert(builder@ =~= text_of(val@));
            builder
        },
    }
}

} // verus!
