//! Ordering of operation rows: date descending, identifier descending.
//!
//! Dates are strings; they compare byte-wise on their UTF-8 encodings,
//! which on ISO calendar dates coincides with chronological order.

use vstd::prelude::*;

use crate::Operation;

verus! {

broadcast use vstd::seq::group_seq_axioms;

/// Strict lexicographic order on byte sequences: a proper prefix comes
/// before every extension of it.
pub open spec fn bytes_lt(a: Seq<u8>, b: Seq<u8>) -> bool
    decreases a.len(),
{
    if b.len() == 0 {
        false
    } else if a.len() == 0 {
        true
    } else if a[0] != b[0] {
        a[0] < b[0]
    } else {
        bytes_lt(a.drop_first(), b.drop_first())
    }
}

/// One date string comes strictly before another when its UTF-8 encoding
/// is lexicographically smaller.
pub open spec fn date_lt(a: Seq<char>, b: Seq<char>) -> bool {
    bytes_lt(vstd::utf8::encode_utf8(a), vstd::utf8::encode_utf8(b))
}

/// Row `a` sorts before row `b`: `a`'s date is strictly later, or the
/// dates are equal and `a`'s identifier is larger.
pub open spec fn op_sorts_before(a: Operation, b: Operation) -> bool {
    date_lt(b.date@, a.date@) || (a.date@ == b.date@ && a.id > b.id)
}

/// The sequence is sorted most-recent-first, ties broken by identifier
/// descending.
pub open spec fn ops_sorted(s: Seq<Operation>) -> bool {
    forall|i: int, j: int| 0 <= i < j < s.len() ==> op_sorts_before(s[i], s[j])
}

pub proof fn lemma_bytes_lt_trichotomy(a: Seq<u8>, b: Seq<u8>)
    ensures
        bytes_lt(a, b) || bytes_lt(b, a) || a == b,
    decreases a.len(),
{
    if a.len() == 0 && b.len() == 0 {
        assert(a =~= b);
    } else if a.len() != 0 && b.len() != 0 && a[0] == b[0] {
        lemma_bytes_lt_trichotomy(a.drop_first(), b.drop_first());
        if a.drop_first() == b.drop_first() {
            assert(a.drop_first().len() == a.len() - 1);
            assert(b.drop_first().len() == b.len() - 1);
            assert(a.len() == b.len());
            assert forall|k: int| 0 <= k < a.len() implies a[k] == b[k] by {
                if k > 0 {
                    assert(a[k] == a.drop_first()[k - 1]);
                    assert(b[k] == b.drop_first()[k - 1]);
                }
            }
            assert(a =~= b);
        }
    }
}

pub proof fn lemma_bytes_lt_transitive(a: Seq<u8>, b: Seq<u8>, c: Seq<u8>)
    requires
        bytes_lt(a, b),
        bytes_lt(b, c),
    ensures
        bytes_lt(a, c),
    decreases a.len(),
{
    if a.len() != 0 && b.len() != 0 && c.len() != 0 && a[0] == c[0] {
        if a[0] == b[0] && b[0] == c[0] {
            lemma_bytes_lt_transitive(a.drop_first(), b.drop_first(), c.drop_first());
        }
    }
}

/// Equal UTF-8 encodings come only from equal character sequences.
pub proof fn lemma_encode_injective(a: Seq<char>, b: Seq<char>)
    requires
        vstd::utf8::encode_utf8(a) == vstd::utf8::encode_utf8(b),
    ensures
        a == b,
{
    vstd::utf8::encode_utf8_decode_utf8(a);
    vstd::utf8::encode_utf8_decode_utf8(b);
}

pub proof fn lemma_date_trichotomy(a: Seq<char>, b: Seq<char>)
    ensures
        date_lt(a, b) || date_lt(b, a) || a == b,
{
    lemma_bytes_lt_trichotomy(vstd::utf8::encode_utf8(a), vstd::utf8::encode_utf8(b));
    if !date_lt(a, b) && !date_lt(b, a) {
        lemma_encode_injective(a, b);
    }
}

pub proof fn lemma_op_sorts_before_transitive(a: Operation, b: Operation, c: Operation)
    requires
        op_sorts_before(a, b),
        op_sorts_before(b, c),
    ensures
        op_sorts_before(a, c),
{
    let ea = vstd::utf8::encode_utf8(a.date@);
    let eb = vstd::utf8::encode_utf8(b.date@);
    let ec = vstd::utf8::encode_utf8(c.date@);
    if date_lt(b.date@, a.date@) && date_lt(c.date@, b.date@) {
        lemma_bytes_lt_transitive(ec, eb, ea);
    }
}

/// Byte-wise equality of two byte slices.
#[verifier::loop_isolation(false)]
fn bytes_eq(a: &[u8], b: &[u8]) -> (r: bool)
    ensures
        r == (a@ == b@),
{
    if a.len() != b.len() {
        assert(a@ != b@);
        return false;
    }
    let n: usize = a.len();
    let mut i: usize = 0;
    while i < n
        invariant
            0 <= i <= n,
            n == a@.len() == b@.len(),
            forall|j: int| 0 <= j < i ==> a@[j] == b@[j],
        decreases n - i,
    {
        if a[i] != b[i] {
            return false;
        }
        i += 1;
    }
    assert(a@ =~= b@);
    true
}

/// Byte-wise lexicographic comparison of two byte slices.
#[verifier::loop_isolation(false)]
fn bytes_lt_exec(a: &[u8], b: &[u8]) -> (r: bool)
    ensures
        r == bytes_lt(a@, b@),
{
    proof {
        assert(a@.skip(0) =~= a@);
        assert(b@.skip(0) =~= b@);
    }
    let mut i: usize = 0;
    while i < a.len() && i < b.len()
        invariant
            0 <= i <= a@.len(),
            0 <= i <= b@.len(),
            bytes_lt(a@, b@) == bytes_lt(a@.skip(i as int), b@.skip(i as int)),
        decreases a@.len() - i,
    {
        let x = a[i];
        let y = b[i];
        proof {
            lemma_bytes_lt_skip_step(a@, b@, i as int);
        }
        if x < y {
            return true;
        }
        if x > y {
            return false;
        }
        i += 1;
    }
    proof {
        if i as int == a@.len() {
            assert(a@.skip(i as int).len() == 0);
        } else {
            assert(b@.skip(i as int).len() == 0);
        }
    }
    i < b.len()
}

/// Dropping one equal leading byte from both sides keeps the order, and
/// the heads of the remaining suffixes are the bytes at position `i`.
proof fn lemma_bytes_lt_skip_step(a: Seq<u8>, b: Seq<u8>, i: int)
    requires
        0 <= i < a.len(),
        0 <= i < b.len(),
    ensures
        a.skip(i)[0] == a[i],
        b.skip(i)[0] == b[i],
        a[i] == b[i] ==> bytes_lt(a.skip(i), b.skip(i)) == bytes_lt(a.skip(i + 1), b.skip(i + 1)),
{
    assert(a.skip(i).drop_first() =~= a.skip(i + 1));
    assert(b.skip(i).drop_first() =~= b.skip(i + 1));
}

/// Character-wise equality of two strings.
pub fn str_eq(a: &str, b: &str) -> (r: bool)
    ensures
        r == (a@ == b@),
{
    let r = bytes_eq(a.as_bytes(), b.as_bytes());
    proof {
        if r {
            lemma_encode_injective(a@, b@);
        }
    }
    r
}

/// Strict date order on strings, byte-wise on the UTF-8 encodings.
pub fn date_lt_exec(a: &str, b: &str) -> (r: bool)
    ensures
        r == date_lt(a@, b@),
{
    bytes_lt_exec(a.as_bytes(), b.as_bytes())
}

/// Whether row `a` sorts before row `b` in a listing.
pub fn op_sorts_before_exec(a: &Operation, b: &Operation) -> (r: bool)
    ensures
        r == op_sorts_before(*a, *b),
{
    if date_lt_exec(b.date.as_str(), a.date.as_str()) {
        true
    } else if date_lt_exec(a.date.as_str(), b.date.as_str()) {
        false
    } else {
        proof {
            lemma_date_trichotomy(a.date@, b.date@);
        }
        a.id > b.id
    }
}

} // verus!
