//! Strings: comparison, building, and the conversions from bytes that the
//! rest of the library needs.

use vstd::prelude::*;
use vstd::string::*;
use vstd::utf8::*;

verus! {

/// What `String::from_utf8_lossy` makes of bytes.
pub uninterp spec fn utf8_lossy(bytes: Seq<u8>) -> Seq<char>;

/// `String::from_utf8_lossy`, owned: well-formed UTF-8 is decoded, and what
/// it makes of ill-formed bytes depends on the bytes alone.
#[verifier::external_body]
pub(crate) fn from_utf8_lossy(bytes: &[u8]) -> (out: String)
    ensures
        out@ == utf8_lossy(bytes@),
        valid_utf8(bytes@) ==> out@ == decode_utf8(bytes@),
{
    String::from_utf8_lossy(bytes).into_owned()
}

/// `String::push`: appends one character.
pub assume_specification[ std::string::String::push ](s: &mut std::string::String, c: char)
    ensures
        final(s)@ == old(s)@.push(c),
;

/// Whether two strings hold the same characters.
pub fn same(a: &str, b: &str) -> (out: bool)
    ensures
        out == (a@ == b@),
{
    proof {
        encode_utf8_decode_utf8(a@);
        encode_utf8_decode_utf8(b@);
    }
    same_bytes(a.as_bytes(), b.as_bytes())
}

/// Whether two byte strings are equal.
pub fn same_bytes(a: &[u8], b: &[u8]) -> (out: bool)
    ensures
        out == (a@ == b@),
{
    if a.len() != b.len() {
        return false;
    }
    let mut i: usize = 0;
    while i < a.len()
        invariant
            a.len() == b.len(),
            i <= a.len(),
            forall|j: int| 0 <= j < i ==> a@[j] == b@[j],
        decreases a.len() - i,
    {
        if a[i] != b[i] {
            return false;
        }
        i += 1;
    }
    assert(a@ =~= b@);
    true
}

/// Whether `a` comes before `b` in byte order, a prefix before what extends
/// it.
pub open spec fn bytes_before(a: Seq<u8>, b: Seq<u8>) -> bool
    decreases a.len(),
{
    if b.len() == 0 {
        false
    } else if a.len() == 0 {
        true
    } else if a[0] != b[0] {
        a[0] < b[0]
    } else {
        bytes_before(a.drop_first(), b.drop_first())
    }
}

/// Whether the string `a` comes before `b`: the order of their UTF-8 bytes.
pub open spec fn chars_before(a: Seq<char>, b: Seq<char>) -> bool {
    bytes_before(encode_utf8(a), encode_utf8(b))
}

proof fn lemma_bytes_total(a: Seq<u8>, b: Seq<u8>)
    ensures
        bytes_before(a, b) || bytes_before(b, a) || a == b,
        !(bytes_before(a, b) && bytes_before(b, a)),
        a == b ==> !bytes_before(a, b),
    decreases a.len(),
{
    if a.len() == 0 || b.len() == 0 {
        if a.len() == b.len() {
            assert(a =~= b);
        }
    } else if a[0] == b[0] {
        lemma_bytes_total(a.drop_first(), b.drop_first());
        if a.drop_first() == b.drop_first() {
            assert(a =~= seq![a[0]] + a.drop_first());
            assert(b =~= seq![b[0]] + b.drop_first());
        }
    }
}

proof fn lemma_bytes_transitive(a: Seq<u8>, b: Seq<u8>, c: Seq<u8>)
    requires
        bytes_before(a, b),
        bytes_before(b, c),
    ensures
        bytes_before(a, c),
    decreases a.len(),
{
    if a.len() > 0 && a[0] == b[0] && b[0] == c[0] {
        lemma_bytes_transitive(a.drop_first(), b.drop_first(), c.drop_first());
    }
}

/// Any two different strings are ordered one way, and only one way.
pub proof fn lemma_before_total(a: Seq<char>, b: Seq<char>)
    ensures
        chars_before(a, b) || chars_before(b, a) || a == b,
        !(chars_before(a, b) && chars_before(b, a)),
        a == b ==> !chars_before(a, b),
{
    encode_utf8_decode_utf8(a);
    encode_utf8_decode_utf8(b);
    lemma_bytes_total(encode_utf8(a), encode_utf8(b));
}

/// The order of strings is transitive.
pub proof fn lemma_before_transitive(a: Seq<char>, b: Seq<char>, c: Seq<char>)
    requires
        chars_before(a, b),
        chars_before(b, c),
    ensures
        chars_before(a, c),
{
    lemma_bytes_transitive(encode_utf8(a), encode_utf8(b), encode_utf8(c));
}

/// Whether `a` comes before `b` in byte order.
fn bytes_precede(a: &[u8], b: &[u8]) -> (out: bool)
    ensures
        out == bytes_before(a@, b@),
{
    let mut i: usize = 0;
    assert(a@.skip(0) =~= a@);
    assert(b@.skip(0) =~= b@);
    while i < a.len() && i < b.len()
        invariant
            i <= a.len(),
            i <= b.len(),
            bytes_before(a@, b@) == bytes_before(a@.skip(i as int), b@.skip(i as int)),
        decreases a.len() - i,
    {
        if a[i] != b[i] {
            return a[i] < b[i];
        }
        assert(a@.skip(i as int).drop_first() =~= a@.skip(i + 1));
        assert(b@.skip(i as int).drop_first() =~= b@.skip(i + 1));
        i += 1;
    }
    i < b.len()
}

/// Whether the string `a` comes before `b`.
pub fn before(a: &str, b: &str) -> (out: bool)
    ensures
        out == chars_before(a@, b@),
{
    bytes_precede(a.as_bytes(), b.as_bytes())
}

/// The characters of a decimal numeral without leading zeros.
pub open spec fn decimal_numeral(n: nat) -> Seq<char>
    decreases n,
{
    let digit = (48 + n % 10) as char;
    if n < 10 {
        seq![digit]
    } else {
        decimal_numeral(n / 10).push(digit)
    }
}

/// `n` in decimal.
pub fn decimal(n: u64) -> (out: String)
    ensures
        out@ == decimal_numeral(n as nat),
    decreases n,
{
    let digit: char = (48 + (n % 10) as u8) as char;
    let mut out = if n < 10 {
        String::new()
    } else {
        decimal(n / 10)
    };
    out.push(digit);
    assert(n < 10 ==> out@ =~= seq![digit]);
    out
}

/// The number a row of decimal digits writes.
pub open spec fn numeral_value(digits: Seq<char>) -> nat
    decreases digits.len(),
{
    if digits.len() == 0 {
        0
    } else {
        10 * numeral_value(digits.drop_last()) + (digits.last() as int - 48) as nat
    }
}

/// Law: a decimal numeral writes its number, with digits only and no zero in
/// front.
pub proof fn decimal_numerals_write_their_number(n: nat)
    ensures
        numeral_value(decimal_numeral(n)) == n,
        forall|i: int|
            0 <= i < decimal_numeral(n).len() ==> '0' <= #[trigger] decimal_numeral(n)[i] <= '9',
        decimal_numeral(n).len() >= 1,
        n > 0 ==> decimal_numeral(n)[0] != '0',
        n < 10 ==> decimal_numeral(n).len() == 1,
    decreases n,
{
    let digit = (48 + n % 10) as char;
    if n < 10 {
        let one = decimal_numeral(n);
        assert(one =~= seq![digit]);
        assert(one.drop_last() =~= Seq::<char>::empty());
        assert(one.last() == digit);
        assert(digit as int == 48 + n);
        assert(numeral_value(Seq::<char>::empty()) == 0);
    } else {
        let head = decimal_numeral(n / 10);
        decimal_numerals_write_their_number(n / 10);
        assert(decimal_numeral(n).drop_last() =~= head);
        assert(decimal_numeral(n).last() == digit);
        assert(digit as int == 48 + n % 10);
        assert(numeral_value(decimal_numeral(n)) == 10 * (n / 10) + n % 10);
        assert forall|i: int| 0 <= i < decimal_numeral(n).len() implies '0'
            <= #[trigger] decimal_numeral(n)[i] <= '9' by {
            if i < head.len() {
                assert(decimal_numeral(n)[i] == head[i]);
            }
        }
        assert(decimal_numeral(n)[0] == head[0]);
    }
}

/// Law: bytes are ordered like words in a dictionary: a proper beginning comes
/// first, otherwise the first byte that differs decides.
pub proof fn bytes_are_ordered_like_words(common: Seq<u8>, a: Seq<u8>, b: Seq<u8>)
    ensures
        a.len() > 0 ==> bytes_before(common, common + a),
        a.len() > 0 && b.len() > 0 && a[0] < b[0] ==> bytes_before(common + a, common + b),
        !bytes_before(common + a, common),
    decreases common.len(),
{
    if common.len() > 0 {
        bytes_are_ordered_like_words(common.drop_first(), a, b);
        assert((common + a).drop_first() =~= common.drop_first() + a);
        assert((common + b).drop_first() =~= common.drop_first() + b);
    } else {
        assert(common + a =~= a);
        assert(common + b =~= b);
    }
}

} // verus!
