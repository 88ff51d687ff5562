//! Ordering and key building on strings.
//!
//! Strings are ordered as `String` orders them: byte-wise over their UTF-8
//! encoding, a shorter prefix first.
use vstd::prelude::*;
use vstd::string::*;
use vstd::utf8::*;
use core::cmp::Ordering;

verus! {

/// Lexicographic comparison of two byte sequences from position `i` on.
pub open spec fn bytes_order_from(a: Seq<u8>, b: Seq<u8>, i: int) -> Ordering
    decreases a.len() - i,
{
    if i >= a.len() || i >= b.len() || i < 0 {
        if a.len() == b.len() {
            Ordering::Equal
        } else if a.len() < b.len() {
            Ordering::Less
        } else {
            Ordering::Greater
        }
    } else if a[i] < b[i] {
        Ordering::Less
    } else if a[i] > b[i] {
        Ordering::Greater
    } else {
        bytes_order_from(a, b, i + 1)
    }
}

/// Lexicographic comparison of two byte sequences.
pub open spec fn bytes_order(a: Seq<u8>, b: Seq<u8>) -> Ordering {
    bytes_order_from(a, b, 0)
}

/// The order of two strings, as `String`'s `Ord` gives it.
#[verifier::opaque]
pub open spec fn text_order(a: Seq<char>, b: Seq<char>) -> Ordering {
    bytes_order(encode_utf8(a), encode_utf8(b))
}

pub open spec fn text_le(a: Seq<char>, b: Seq<char>) -> bool {
    text_order(a, b) != Ordering::Greater
}

pub open spec fn text_lt(a: Seq<char>, b: Seq<char>) -> bool {
    text_order(a, b) == Ordering::Less
}

/// `n` copies of the digit zero.
pub open spec fn zeros(n: int) -> Seq<char> {
    Seq::new(if n > 0 { n as nat } else { 0 }, |i: int| '0')
}

/// The period key of a year and a month: the year followed by the month,
/// padded on the left with zeros to at least two characters.
pub open spec fn period_key_of(year: Seq<char>, month: Seq<char>) -> Seq<char> {
    year + zeros(2 - month.len()) + month
}

proof fn lemma_bytes_order_from_flip(a: Seq<u8>, b: Seq<u8>, i: int)
    requires
        0 <= i,
    ensures
        bytes_order_from(a, b, i) == Ordering::Less <==> bytes_order_from(b, a, i)
            == Ordering::Greater,
        bytes_order_from(a, b, i) == Ordering::Equal <==> bytes_order_from(b, a, i)
            == Ordering::Equal,
    decreases a.len() - i,
{
    if i < a.len() && i < b.len() && a[i] == b[i] {
        lemma_bytes_order_from_flip(a, b, i + 1);
    }
}

proof fn lemma_bytes_order_from_equal(a: Seq<u8>, b: Seq<u8>, i: int)
    requires
        0 <= i <= a.len(),
        i <= b.len(),
        a.subrange(0, i) == b.subrange(0, i),
    ensures
        bytes_order_from(a, b, i) == Ordering::Equal <==> a == b,
    decreases a.len() - i,
{
    if i < a.len() && i < b.len() && a[i] == b[i] {
        assert(a.subrange(0, i + 1) =~= a.subrange(0, i).push(a[i]));
        assert(b.subrange(0, i + 1) =~= b.subrange(0, i).push(b[i]));
        lemma_bytes_order_from_equal(a, b, i + 1);
    } else if i < a.len() && i < b.len() {
        assert(a[i] != b[i]);
    } else if a.len() == b.len() {
        assert(a =~= a.subrange(0, i));
        assert(b =~= b.subrange(0, i));
    }
}

proof fn lemma_bytes_order_from_trans(a: Seq<u8>, b: Seq<u8>, c: Seq<u8>, i: int)
    requires
        0 <= i,
        bytes_order_from(a, b, i) != Ordering::Greater,
        bytes_order_from(b, c, i) != Ordering::Greater,
    ensures
        bytes_order_from(a, c, i) != Ordering::Greater,
        bytes_order_from(a, b, i) == Ordering::Less || bytes_order_from(b, c, i)
            == Ordering::Less ==> bytes_order_from(a, c, i) == Ordering::Less,
    decreases a.len() - i,
{
    if i < a.len() && i < b.len() && i < c.len() && a[i] == b[i] && b[i] == c[i] {
        lemma_bytes_order_from_trans(a, b, c, i + 1);
    }
}

/// The order on strings is a total order.
pub proof fn lemma_text_order(a: Seq<char>, b: Seq<char>, c: Seq<char>)
    ensures
        text_le(a, b) || text_le(b, a),
        text_lt(a, b) <==> !text_le(b, a),
        text_order(a, b) == Ordering::Equal <==> a == b,
        text_le(a, b) && text_le(b, c) ==> text_le(a, c),
        text_le(a, b) && text_lt(b, c) ==> text_lt(a, c),
        text_lt(a, b) && text_le(b, c) ==> text_lt(a, c),
{
    reveal(text_order);
    let (ea, eb, ec) = (encode_utf8(a), encode_utf8(b), encode_utf8(c));
    lemma_bytes_order_from_flip(ea, eb, 0);
    assert(ea.subrange(0, 0) =~= eb.subrange(0, 0));
    lemma_bytes_order_from_equal(ea, eb, 0);
    encode_utf8_decode_utf8(a);
    encode_utf8_decode_utf8(b);
    if text_le(a, b) && text_le(b, c) {
        lemma_bytes_order_from_trans(ea, eb, ec, 0);
    }
}

/// Compares two strings in the order of `String`.
pub fn compare_text(a: &String, b: &String) -> (r: Ordering)
    ensures
        r == text_order(a@, b@),
{
    reveal(text_order);
    let x = a.as_str().as_bytes();
    let y = b.as_str().as_bytes();
    let mut i: usize = 0;
    while i < x.len() && i < y.len()
        invariant
            x@ == encode_utf8(a@),
            y@ == encode_utf8(b@),
            i <= x.len(),
            i <= y.len(),
            bytes_order_from(x@, y@, i as int) == text_order(a@, b@),
        decreases x.len() - i,
    {
        if x[i] < y[i] {
            return Ordering::Less;
        } else if x[i] > y[i] {
            return Ordering::Greater;
        }
        i = i + 1;
    }
    if x.len() == y.len() {
        Ordering::Equal
    } else if x.len() < y.len() {
        Ordering::Less
    } else {
        Ordering::Greater
    }
}

/// Relies on `str::chars` and `Iterator::count`: the number of characters.
#[verifier::external_body]
fn char_count(s: &str) -> (r: usize)
    ensures
        r == s@.len(),
{
    s.chars().count()
}

/// The period key of a year and a month: the year followed by the month,
/// padded on the left with zeros to at least two characters.
pub fn period_key(year: &String, month: &String) -> (r: String)
    ensures
        r@ == period_key_of(year@, month@),
{
    let mut key = year.clone();
    let n = char_count(month.as_str());
    let mut i: usize = n;
    while i < 2
        invariant
            n == month@.len(),
            n <= i <= 2 || (n == i && i > 2),
            key@ == year@ + zeros(i - n),
        decreases 2 - i,
    {
        proof {
            reveal_strlit("0");
        }
        key.append("0");
        assert(key@ =~= year@ + zeros(i + 1 - n));
        i = i + 1;
    }
    assert(zeros(i - n) =~= zeros(2 - n));
    key.append(month.as_str());
    key
}

} // verus!
