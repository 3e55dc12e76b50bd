//! The value tree: the closed union of values that an attribute can hold,
//! and the mapping from text keys to value trees.

use vstd::prelude::*;
use vstd::utf8::*;

verus! {

/// The mathematical model of a value tree.
///
/// A mapping is modelled by its entries in key order; see [`sorted`].
pub enum Tree {
    Integer(i64),
    Double { bits: u64, text: Seq<char> },
    Boolean(bool),
    String(Seq<char>),
    Bytes(Seq<u8>),
    List(Seq<Tree>),
    Mapping(Seq<(Seq<char>, Tree)>),
}

/// A value tree.
///
/// A double is held by the bit pattern of its IEEE 754 binary64 form,
/// together with its decimal text.
#[derive(Debug, PartialEq, Eq)]
pub enum Any {
    Integer(i64),
    Double { bits: u64, text: String },
    Boolean(bool),
    String(String),
    Bytes(Vec<u8>),
    List(Vec<Any>),
    Mapping(AnyMap),
}

/// A mapping from text keys to value trees: keys are unique, and the entries
/// are held in key order.
#[derive(Debug, PartialEq, Eq)]
pub struct AnyMap {
    entries: Vec<(String, Any)>,
}

/// The model of the entries of a mapping.
pub open spec fn entries_view(entries: Seq<(String, Any)>) -> Seq<(Seq<char>, Tree)>
    decreases entries,
{
    Seq::new(
        entries.len(),
        |i: int|
            if 0 <= i < entries.len() {
                (entries[i].0@, entries[i].1.view())
            } else {
                (Seq::empty(), Tree::Boolean(false))
            },
    )
}

/// The model of the items of a list.
pub open spec fn items_view(items: Seq<Any>) -> Seq<Tree>
    decreases items,
{
    Seq::new(
        items.len(),
        |i: int|
            if 0 <= i < items.len() {
                items[i].view()
            } else {
                Tree::Boolean(false)
            },
    )
}

impl View for Any {
    type V = Tree;

    open spec fn view(&self) -> Tree
        decreases self,
    {
        match self {
            Any::Integer(v) => Tree::Integer(*v),
            Any::Double { bits, text } => Tree::Double { bits: *bits, text: text@ },
            Any::Boolean(b) => Tree::Boolean(*b),
            Any::String(s) => Tree::String(s@),
            Any::Bytes(b) => Tree::Bytes(b@),
            Any::List(items) => Tree::List(items_view(items@)),
            Any::Mapping(m) => Tree::Mapping(m.view()),
        }
    }
}

impl View for AnyMap {
    type V = Seq<(Seq<char>, Tree)>;

    closed spec fn view(&self) -> Seq<(Seq<char>, Tree)>
        decreases self,
    {
        entries_view(self.entries@)
    }
}

/// Lexicographic order on byte sequences.
pub open spec fn bytes_lt(a: Seq<u8>, b: Seq<u8>) -> bool
    decreases a.len(),
{
    if b.len() == 0 {
        false
    } else if a.len() == 0 {
        true
    } else if a[0] != b[0] {
        a[0] < b[0]
    } else {
        bytes_lt(a.drop_first(), b.drop_first())
    }
}

/// The order of keys: that of their UTF-8 encodings, byte by byte.
pub open spec fn key_lt(a: Seq<char>, b: Seq<char>) -> bool {
    bytes_lt(encode_utf8(a), encode_utf8(b))
}

/// Entries are in strictly increasing key order; so no key occurs twice.
pub open spec fn sorted(entries: Seq<(Seq<char>, Tree)>) -> bool {
    forall|i: int, j: int|
        0 <= i < j < entries.len() ==> #[trigger] key_lt(entries[i].0, entries[j].0)
}

/// The index of the first entry whose key is not below `key`; the number of
/// entries where there is none.
pub open spec fn rank(entries: Seq<(Seq<char>, Tree)>, key: Seq<char>) -> int
    decreases entries.len(),
{
    if entries.len() == 0 || !key_lt(entries[0].0, key) {
        0
    } else {
        1 + rank(entries.drop_first(), key)
    }
}

/// The value that sorted entries hold for `key`.
pub open spec fn lookup(entries: Seq<(Seq<char>, Tree)>, key: Seq<char>) -> Option<Tree> {
    let i = rank(entries, key);
    if i < entries.len() && entries[i].0 == key {
        Some(entries[i].1)
    } else {
        None
    }
}

/// Sorted entries with `key` bound to `value`: an entry that had the key is
/// replaced, otherwise the new entry takes its place in key order.
pub open spec fn put(entries: Seq<(Seq<char>, Tree)>, key: Seq<char>, value: Tree) -> Seq<
    (Seq<char>, Tree),
> {
    let i = rank(entries, key);
    if i < entries.len() && entries[i].0 == key {
        entries.update(i, (key, value))
    } else {
        entries.insert(i, (key, value))
    }
}

/// No byte sequence is below itself.
pub proof fn lemma_bytes_lt_irreflexive(a: Seq<u8>)
    ensures
        !bytes_lt(a, a),
    decreases a.len(),
{
    if a.len() > 0 {
        lemma_bytes_lt_irreflexive(a.drop_first());
    }
}

/// The order on byte sequences is transitive.
pub proof fn lemma_bytes_lt_transitive(a: Seq<u8>, b: Seq<u8>, c: Seq<u8>)
    requires
        bytes_lt(a, b),
        bytes_lt(b, c),
    ensures
        bytes_lt(a, c),
    decreases a.len(),
{
    if a.len() > 0 && a[0] == b[0] && b[0] == c[0] {
        lemma_bytes_lt_transitive(a.drop_first(), b.drop_first(), c.drop_first());
    }
}

/// Of two different byte sequences one is below the other.
pub proof fn lemma_bytes_lt_total(a: Seq<u8>, b: Seq<u8>)
    ensures
        bytes_lt(a, b) || bytes_lt(b, a) || a == b,
    decreases a.len(),
{
    if a.len() == 0 || b.len() == 0 {
        if a.len() == 0 && b.len() == 0 {
            assert(a =~= b);
        }
    } else if a[0] == b[0] {
        lemma_bytes_lt_total(a.drop_first(), b.drop_first());
        if a.drop_first() == b.drop_first() {
            assert(a =~= seq![a[0]] + a.drop_first());
            assert(b =~= seq![b[0]] + b.drop_first());
        }
    }
}

/// No key is below itself.
pub proof fn lemma_key_lt_irreflexive(a: Seq<char>)
    ensures
        !key_lt(a, a),
{
    lemma_bytes_lt_irreflexive(encode_utf8(a));
}

/// The order of keys is transitive.
pub proof fn lemma_key_lt_transitive(a: Seq<char>, b: Seq<char>, c: Seq<char>)
    requires
        key_lt(a, b),
        key_lt(b, c),
    ensures
        key_lt(a, c),
{
    lemma_bytes_lt_transitive(encode_utf8(a), encode_utf8(b), encode_utf8(c));
}

/// Of two different keys one is below the other.
pub proof fn lemma_key_lt_total(a: Seq<char>, b: Seq<char>)
    ensures
        key_lt(a, b) || key_lt(b, a) || a == b,
{
    lemma_bytes_lt_total(encode_utf8(a), encode_utf8(b));
    if encode_utf8(a) == encode_utf8(b) {
        encode_utf8_decode_utf8(a);
        encode_utf8_decode_utf8(b);
    }
}

/// What `rank` is: within bounds, above every entry below `key`, and at an
/// entry that is not below `key` where it is at one.
pub proof fn lemma_rank_bounds(entries: Seq<(Seq<char>, Tree)>, key: Seq<char>)
    ensures
        0 <= rank(entries, key) <= entries.len(),
        forall|j: int| 0 <= j < rank(entries, key) ==> #[trigger] key_lt(entries[j].0, key),
        rank(entries, key) < entries.len() ==> !key_lt(entries[rank(entries, key)].0, key),
    decreases entries.len(),
{
    if entries.len() == 0 || !key_lt(entries[0].0, key) {
    } else {
        let rest = entries.drop_first();
        lemma_rank_bounds(rest, key);
        assert forall|j: int| 0 <= j < rank(entries, key) implies #[trigger] key_lt(
            entries[j].0,
            key,
        ) by {
            if j > 0 {
                assert(entries[j] == rest[j - 1]);
                assert(key_lt(rest[j - 1].0, key));
            }
        }
        if rank(entries, key) < entries.len() {
            assert(entries[rank(entries, key)] == rest[rank(rest, key)]);
        }
    }
}

/// An index with the two properties of `rank` is the rank.
pub proof fn lemma_rank_is(entries: Seq<(Seq<char>, Tree)>, key: Seq<char>, i: int)
    requires
        0 <= i <= entries.len(),
        forall|j: int| 0 <= j < i ==> #[trigger] key_lt(entries[j].0, key),
        i < entries.len() ==> !key_lt(entries[i].0, key),
    ensures
        rank(entries, key) == i,
    decreases i,
{
    if i > 0 {
        let rest = entries.drop_first();
        assert(key_lt(entries[0].0, key));
        assert forall|j: int| 0 <= j < i - 1 implies #[trigger] key_lt(rest[j].0, key) by {
            assert(rest[j] == entries[j + 1]);
            assert(key_lt(entries[j + 1].0, key));
        }
        if i < entries.len() {
            assert(rest[i - 1] == entries[i]);
        }
        lemma_rank_is(rest, key, i - 1);
    }
}

/// Binding a key in sorted entries leaves them sorted.
pub proof fn lemma_put_sorted(entries: Seq<(Seq<char>, Tree)>, key: Seq<char>, value: Tree)
    requires
        sorted(entries),
    ensures
        sorted(put(entries, key, value)),
{
    let i = rank(entries, key);
    let out = put(entries, key, value);
    lemma_rank_bounds(entries, key);
    if i < entries.len() && entries[i].0 == key {
        assert forall|a: int, b: int| 0 <= a < b < out.len() implies #[trigger] key_lt(
            out[a].0,
            out[b].0,
        ) by {
            assert(out[a].0 == entries[a].0);
            assert(out[b].0 == entries[b].0);
            assert(key_lt(entries[a].0, entries[b].0));
        }
    } else {
        assert forall|a: int, b: int| 0 <= a < b < out.len() implies #[trigger] key_lt(
            out[a].0,
            out[b].0,
        ) by {
            if b < i {
                assert(key_lt(entries[a].0, entries[b].0));
            } else if b == i {
                assert(key_lt(entries[a].0, key));
            } else if a == i {
                lemma_key_lt_total(key, entries[i].0);
                if b - 1 > i {
                    assert(key_lt(entries[i].0, entries[b - 1].0));
                    lemma_key_lt_transitive(key, entries[i].0, entries[b - 1].0);
                }
            } else if a < i {
                assert(key_lt(entries[a].0, entries[b - 1].0));
            } else {
                assert(key_lt(entries[a - 1].0, entries[b - 1].0));
            }
        }
    }
}

/// Whether the key `a` is below the key `b`.
pub fn key_below(a: &str, b: &str) -> (r: bool)
    ensures
        r == key_lt(a@, b@),
{
    let x = a.as_bytes();
    let y = b.as_bytes();
    let mut i: usize = 0;
    assert(x@.skip(0) =~= x@ && y@.skip(0) =~= y@);
    while i < x.len() && i < y.len()
        invariant
            i <= x@.len(),
            i <= y@.len(),
            x@ == encode_utf8(a@),
            y@ == encode_utf8(b@),
            bytes_lt(x@, y@) == bytes_lt(x@.skip(i as int), y@.skip(i as int)),
        decreases x@.len() - i,
    {
        let ghost xs = x@.skip(i as int);
        let ghost ys = y@.skip(i as int);
        assert(xs[0] == x@[i as int] && ys[0] == y@[i as int]);
        if x[i] != y[i] {
            return x[i] < y[i];
        }
        assert(xs.drop_first() =~= x@.skip(i + 1));
        assert(ys.drop_first() =~= y@.skip(i + 1));
        i += 1;
    }
    i < y.len()
}

impl AnyMap {
    #[verifier::type_invariant]
    spec fn in_key_order(self) -> bool {
        sorted(self@)
    }

    /// The empty mapping.
    pub fn new() -> (m: AnyMap)
        ensures
            m@ == Seq::<(Seq<char>, Tree)>::empty(),
    {
        let m = AnyMap { entries: Vec::new() };
        assert(m@ =~= Seq::<(Seq<char>, Tree)>::empty());
        m
    }

    /// The number of entries. They are in key order, as those of every
    /// mapping are.
    pub fn len(&self) -> (n: usize)
        ensures
            n == self@.len(),
            sorted(self@),
    {
        proof {
            use_type_invariant(self);
        }
        self.entries.len()
    }

    /// The key of the entry at `i`, in key order.
    pub fn key(&self, i: usize) -> (k: &String)
        requires
            i < self@.len(),
        ensures
            k@ == self@[i as int].0,
    {
        &self.entries[i].0
    }

    /// The value of the entry at `i`, in key order. It is a part of the
    /// mapping, and so smaller than it.
    pub fn value(&self, i: usize) -> (v: &Any)
        requires
            i < self@.len(),
        ensures
            v@ == self@[i as int].1,
            decreases_to!(self => v),
    {
        &self.entries[i].1
    }

    fn position(&self, key: &str) -> (i: usize)
        ensures
            i == rank(self@, key@),
            i <= self@.len(),
    {
        let n = self.entries.len();
        let mut i: usize = 0;
        while i < n
            invariant
                i <= n,
                n == self@.len(),
                forall|j: int| 0 <= j < i ==> #[trigger] key_lt(self@[j].0, key@),
            decreases n - i,
        {
            if !key_below(self.entries[i].0.as_str(), key) {
                proof {
                    lemma_rank_is(self@, key@, i as int);
                }
                return i;
            }
            i += 1;
        }
        proof {
            lemma_rank_is(self@, key@, i as int);
        }
        i
    }

    /// The value bound to `key`, if there is one.
    pub fn get(&self, key: &str) -> (r: Option<&Any>)
        ensures
            r is Some <==> lookup(self@, key@) is Some,
            r matches Some(v) ==> lookup(self@, key@) == Some(v@),
    {
        let i = self.position(key);
        proof {
            lemma_rank_bounds(self@, key@);
            lemma_key_lt_irreflexive(key@);
            if i < self@.len() {
                lemma_key_lt_total(key@, self@[i as int].0);
            }
        }
        if i < self.entries.len() && !key_below(key, self.entries[i].0.as_str()) {
            Some(&self.entries[i].1)
        } else {
            None
        }
    }

    /// Binds `key` to `value`. A value that the key was bound to before is
    /// dropped: the last write wins.
    pub fn insert(&mut self, key: String, value: Any)
        ensures
            final(self)@ == put(old(self)@, key@, value@),
            sorted(final(self)@),
    {
        proof {
            use_type_invariant(&*self);
            lemma_put_sorted(self@, key@, value@);
        }
        let i = self.position(key.as_str());
        let mut entries: Vec<(String, Any)> = Vec::new();
        core::mem::swap(&mut self.entries, &mut entries);
        let ghost before = entries_view(entries@);
        let replace = i < entries.len() && entries[i].0 == key;
        if replace {
            entries.set(i, (key, value));
            assert(entries_view(entries@) =~= before.update(i as int, (key@, value@)));
        } else {
            entries.insert(i, (key, value));
            assert(entries_view(entries@) =~= before.insert(i as int, (key@, value@)));
        }
        self.entries = entries;
    }
}

} // verus!
