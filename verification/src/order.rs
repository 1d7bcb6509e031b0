//! The order of strings by which tables are kept: that of their UTF-8 bytes,
//! byte by byte, a prefix before what it is a prefix of. It is the order in
//! which `str` and `String` compare.

use vstd::prelude::*;
use vstd::utf8::{encode_utf8, encode_utf8_decode_utf8};

verus! {

/// `a` comes before `b`: at the first place where they differ `a` has the
/// smaller byte, or `a` ends there and `b` goes on.
pub open spec fn bytes_less(a: Seq<u8>, b: Seq<u8>) -> bool
    decreases a.len(),
{
    if b.len() == 0 {
        false
    } else if a.len() == 0 {
        true
    } else if a[0] != b[0] {
        a[0] < b[0]
    } else {
        bytes_less(a.drop_first(), b.drop_first())
    }
}

/// The text `a` comes before the text `b`.
pub open spec fn key_less(a: Seq<char>, b: Seq<char>) -> bool {
    bytes_less(encode_utf8(a), encode_utf8(b))
}

/// Nothing comes before itself.
pub proof fn lemma_bytes_less_irreflexive(a: Seq<u8>)
    ensures
        !bytes_less(a, a),
    decreases a.len(),
{
    if a.len() > 0 {
        lemma_bytes_less_irreflexive(a.drop_first());
    }
}

/// What comes before something that comes before a third comes before the
/// third.
pub proof fn lemma_bytes_less_transitive(a: Seq<u8>, b: Seq<u8>, c: Seq<u8>)
    requires
        bytes_less(a, b),
        bytes_less(b, c),
    ensures
        bytes_less(a, c),
    decreases a.len(),
{
    if a.len() > 0 && a[0] == b[0] && b[0] == c[0] {
        lemma_bytes_less_transitive(a.drop_first(), b.drop_first(), c.drop_first());
    }
}

/// Of two byte sequences one comes before the other, or they are equal.
pub proof fn lemma_bytes_less_total(a: Seq<u8>, b: Seq<u8>)
    ensures
        bytes_less(a, b) || a == b || bytes_less(b, a),
    decreases a.len(),
{
    if a.len() > 0 && b.len() > 0 && a[0] == b[0] {
        lemma_bytes_less_total(a.drop_first(), b.drop_first());
        if a.drop_first() == b.drop_first() {
            assert(a == seq![a[0]] + a.drop_first());
            assert(b == seq![b[0]] + b.drop_first());
        }
    } else if a.len() == 0 && b.len() == 0 {
        assert(a == b);
    }
}

/// Two sequences that agree on their first `n` bytes compare as what follows
/// those bytes.
pub proof fn lemma_bytes_less_after_prefix(a: Seq<u8>, b: Seq<u8>, n: int)
    requires
        0 <= n <= a.len(),
        n <= b.len(),
        forall|j: int| 0 <= j < n ==> a[j] == b[j],
    ensures
        bytes_less(a, b) == bytes_less(a.skip(n), b.skip(n)),
        bytes_less(b, a) == bytes_less(b.skip(n), a.skip(n)),
    decreases n,
{
    if n == 0 {
        assert(a.skip(0) == a);
        assert(b.skip(0) == b);
    } else {
        let x = a.drop_first();
        let y = b.drop_first();
        assert forall|j: int| 0 <= j < n - 1 implies x[j] == y[j] by {
            assert(a[j + 1] == b[j + 1]);
        }
        lemma_bytes_less_after_prefix(x, y, n - 1);
        assert(x.skip(n - 1) == a.skip(n));
        assert(y.skip(n - 1) == b.skip(n));
        assert(a[0] == b[0]);
    }
}

/// No text comes before itself.
pub proof fn lemma_key_less_irreflexive(a: Seq<char>)
    ensures
        !key_less(a, a),
{
    lemma_bytes_less_irreflexive(encode_utf8(a));
}

/// The order of texts is transitive.
pub proof fn lemma_key_less_transitive(a: Seq<char>, b: Seq<char>, c: Seq<char>)
    requires
        key_less(a, b),
        key_less(b, c),
    ensures
        key_less(a, c),
{
    lemma_bytes_less_transitive(encode_utf8(a), encode_utf8(b), encode_utf8(c));
}

/// Of two texts exactly one comes before the other, unless they are equal,
/// and then none does.
pub proof fn lemma_key_less_total(a: Seq<char>, b: Seq<char>)
    ensures
        key_less(a, b) || a == b || key_less(b, a),
        !(key_less(a, b) && key_less(b, a)),
        a == b ==> !key_less(a, b),
{
    lemma_bytes_less_total(encode_utf8(a), encode_utf8(b));
    if encode_utf8(a) == encode_utf8(b) {
        encode_utf8_decode_utf8(a);
        encode_utf8_decode_utf8(b);
    }
    if key_less(a, b) && key_less(b, a) {
        lemma_key_less_transitive(a, b, a);
    }
    lemma_key_less_irreflexive(a);
}

/// How one text stands to another in the order.
#[derive(Debug, Clone, Copy, PartialEq, Eq, Structural)]
pub enum Place {
    Before,
    Same,
    After,
}

/// How `a` stands to `b` in the order of texts.
pub fn place_of(a: &str, b: &str) -> (place: Place)
    ensures
        match place {
            Place::Before => key_less(a@, b@),
            Place::Same => a@ == b@,
            Place::After => key_less(b@, a@),
        },
{
    let x = a.as_bytes();
    let y = b.as_bytes();
    let mut i: usize = 0;
    while i < x.len() && i < y.len() && x[i] == y[i]
        invariant
            i <= x@.len(),
            i <= y@.len(),
            forall|j: int| 0 <= j < i ==> x@[j] == y@[j],
        decreases x@.len() - i,
    {
        i += 1;
    }
    proof {
        lemma_bytes_less_after_prefix(x@, y@, i as int);
        lemma_key_less_total(a@, b@);
    }
    if i == x.len() {
        if i == y.len() {
            assert(x@ == y@);
            Place::Same
        } else {
            assert(bytes_less(x@.skip(i as int), y@.skip(i as int)));
            Place::Before
        }
    } else if i == y.len() {
        assert(bytes_less(y@.skip(i as int), x@.skip(i as int)));
        Place::After
    } else if x[i] < y[i] {
        assert(bytes_less(x@.skip(i as int), y@.skip(i as int)));
        Place::Before
    } else {
        assert(bytes_less(y@.skip(i as int), x@.skip(i as int)));
        Place::After
    }
}

/// Whether `a` and `b` are the same text.
pub fn same_text(a: &str, b: &str) -> (same: bool)
    ensures
        same == (a@ == b@),
{
    proof {
        lemma_key_less_total(a@, b@);
    }
    match place_of(a, b) {
        Place::Same => true,
        _ => false,
    }
}

} // verus!
