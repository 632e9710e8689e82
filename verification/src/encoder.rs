//! Encoding of logical endpoint names into wire-safe service identifiers.
//!
//! An encoded identifier is a fixed prefix, followed by a sanitized copy of
//! the input (every character outside ASCII letters, digits and underscore
//! becomes an underscore), followed by a decimal checksum of the raw UTF-8
//! bytes of the original input.  The sanitized body is truncated so that the
//! whole identifier never exceeds a fixed maximum length; the checksum is
//! never truncated, so names that collide after sanitization and truncation
//! still differ unless their checksums collide.

use vstd::prelude::*;
use vstd::string::StrSliceExecFns;
use vstd::string::StringExecFns;
use vstd::utf8::encode_utf8;

verus! {

/// Characters that may appear unchanged in an identifier body:
/// ASCII letters, ASCII digits and underscore.
pub open spec fn is_ident_char(c: char) -> bool {
    let u = c as u32;
    ('a' as u32) <= u && u <= ('z' as u32) || ('A' as u32) <= u && u <= ('Z' as u32) || ('0'
        as u32) <= u && u <= ('9' as u32) || c == '_'
}

/// A single sanitized character: identifier characters pass through,
/// everything else becomes an underscore.
pub open spec fn sanitize_char(c: char) -> char {
    if is_ident_char(c) {
        c
    } else {
        '_'
    }
}

/// The sanitized form of a character sequence.
pub open spec fn sanitized(s: Seq<char>) -> Seq<char> {
    s.map_values(|c: char| sanitize_char(c))
}

/// The running checksum of a byte sequence: starting from zero, each byte
/// folds in as `sum * 31 + byte`, reduced modulo 1_000_000_007.
pub open spec fn checksum(bytes: Seq<u8>) -> int
    decreases bytes.len(),
{
    if bytes.len() == 0 {
        0
    } else {
        (checksum(bytes.drop_last()) * 31 + bytes.last()) % 1_000_000_007
    }
}

/// The checksum of any byte sequence lies below the modulus.
pub proof fn lemma_checksum_range(bytes: Seq<u8>)
    ensures
        0 <= checksum(bytes) < 1_000_000_007,
    decreases bytes.len(),
{
    if bytes.len() > 0 {
        lemma_checksum_range(bytes.drop_last());
    }
}

/// The character for one decimal digit.
pub open spec fn decimal_digit(d: nat) -> char {
    if d == 0 {
        '0'
    } else if d == 1 {
        '1'
    } else if d == 2 {
        '2'
    } else if d == 3 {
        '3'
    } else if d == 4 {
        '4'
    } else if d == 5 {
        '5'
    } else if d == 6 {
        '6'
    } else if d == 7 {
        '7'
    } else if d == 8 {
        '8'
    } else {
        '9'
    }
}

/// The decimal rendering of a natural number: no sign, no padding,
/// most significant digit first.
pub open spec fn decimal(n: nat) -> Seq<char>
    decreases n,
{
    if n < 10 {
        seq![decimal_digit(n)]
    } else {
        decimal(n / 10).push(decimal_digit(n % 10))
    }
}

/// A decimal rendering is never empty.
pub proof fn lemma_decimal_nonempty(n: nat)
    ensures
        decimal(n).len() >= 1,
    decreases n,
{
    if n >= 10 {
        lemma_decimal_nonempty(n / 10);
    }
}

/// Powers of ten.
pub open spec fn pow10(k: nat) -> nat
    decreases k,
{
    if k == 0 {
        1
    } else {
        10 * pow10((k - 1) as nat)
    }
}

/// A number below the k-th power of ten renders in at most k digits.
pub proof fn lemma_decimal_len(n: nat, k: nat)
    requires
        k >= 1,
        n < pow10(k),
    ensures
        decimal(n).len() <= k,
    decreases k,
{
    if n >= 10 {
        assert(pow10(k) == 10 * pow10((k - 1) as nat));
        assert(n / 10 < pow10((k - 1) as nat)) by (nonlinear_arith)
            requires
                n < 10 * pow10((k - 1) as nat),
        ;
        assert(k >= 2) by {
            if k == 1 {
                assert(pow10(1nat) == 10);
            }
        }
        lemma_decimal_len(n / 10, (k - 1) as nat);
    }
}

/// Distinct digits render as distinct characters.
pub proof fn lemma_digit_injective(x: nat, y: nat)
    requires
        x < 10,
        y < 10,
        decimal_digit(x) == decimal_digit(y),
    ensures
        x == y,
{
    assert(decimal_digit(x) as u32 == decimal_digit(y) as u32);
}

/// Distinct numbers render as distinct digit strings.
pub proof fn lemma_decimal_injective(a: nat, b: nat)
    requires
        decimal(a) == decimal(b),
    ensures
        a == b,
    decreases a,
{
    if a < 10 && b < 10 {
        assert(decimal(a) == seq![decimal_digit(a)]);
        assert(decimal(b) == seq![decimal_digit(b)]);
        assert(decimal_digit(a) == decimal(a)[0]);
        assert(decimal_digit(b) == decimal(b)[0]);
        lemma_digit_injective(a, b);
    } else if a < 10 && b >= 10 {
        lemma_decimal_nonempty(b / 10);
        assert(decimal(b).len() >= 2);
    } else if a >= 10 && b < 10 {
        lemma_decimal_nonempty(a / 10);
        assert(decimal(a).len() >= 2);
    } else {
        let da = decimal(a / 10);
        let db = decimal(b / 10);
        assert(decimal(a) == decimal(a / 10).push(decimal_digit(a % 10)));
        assert(decimal(b) == decimal(b / 10).push(decimal_digit(b % 10)));
        assert(decimal(a).last() == decimal_digit(a % 10));
        assert(decimal(b).last() == decimal_digit(b % 10));
        assert(decimal(a).last() == decimal(b).last());
        lemma_digit_injective(a % 10, b % 10);
        assert(a % 10 == b % 10);
        assert(da =~= decimal(a).drop_last());
        assert(db =~= decimal(b).drop_last());
        lemma_decimal_injective(a / 10, b / 10);
        assert(a == 10 * (a / 10) + a % 10);
        assert(b == 10 * (b / 10) + b % 10);
    }
}

/// The fixed prefix of every encoded identifier.
pub open spec fn spec_prefix() -> Seq<char> {
    seq!['r', 'o', 's', '2', '_']
}

/// The decimal checksum suffix for an input, computed over the raw UTF-8
/// bytes of the whole, unsanitized input.
pub open spec fn checksum_digits(s: Seq<char>) -> Seq<char> {
    decimal(checksum(encode_utf8(s)) as nat)
}

/// How many body characters fit once the prefix and the checksum are
/// accounted for, clamped at zero rather than allowed to underflow.
pub open spec fn body_limit(cks_len: nat) -> nat {
    if 5 + cks_len <= 256 {
        (256 - 5 - cks_len) as nat
    } else {
        0
    }
}

/// The sanitized body of the encoded identifier, truncated from the end so
/// that the whole identifier stays within the maximum length.
pub open spec fn encoded_body(s: Seq<char>) -> Seq<char> {
    let body = sanitized(s);
    let limit = body_limit(checksum_digits(s).len());
    if body.len() > limit {
        body.take(limit as int)
    } else {
        body
    }
}

/// The full encoded identifier for an input.
pub open spec fn encoded(s: Seq<char>) -> Seq<char> {
    spec_prefix() + encoded_body(s) + checksum_digits(s)
}

/// Sanitize one character.
fn sanitize_char_exec(c: char) -> (r: char)
    ensures
        r == sanitize_char(c),
{
    let u: u32 = c as u32;
    if 97 <= u && u <= 122 || 65 <= u && u <= 90 || 48 <= u && u <= 57 || u == 95 {
        c
    } else {
        '_'
    }
}

/// Relies on `String::push` from std: appends the given character to the
/// end of the string.
#[verifier::external_body]
fn push_char(s: &mut String, c: char)
    ensures
        final(s)@ == old(s)@.push(c),
{
    s.push(c);
}

/// The character for one decimal digit.
fn digit_char(d: u64) -> (r: char)
    requires
        d < 10,
    ensures
        r == decimal_digit(d as nat),
{
    if d == 0 {
        '0'
    } else if d == 1 {
        '1'
    } else if d == 2 {
        '2'
    } else if d == 3 {
        '3'
    } else if d == 4 {
        '4'
    } else if d == 5 {
        '5'
    } else if d == 6 {
        '6'
    } else if d == 7 {
        '7'
    } else if d == 8 {
        '8'
    } else {
        '9'
    }
}

/// Render a number as decimal digits.
fn u64_to_decimal(n: u64) -> (r: String)
    ensures
        r@ == decimal(n as nat),
    decreases n,
{
    if n < 10 {
        let mut s = String::new();
        push_char(&mut s, digit_char(n));
        proof {
            assert(s@ =~= decimal(n as nat));
        }
        s
    } else {
        let mut s = u64_to_decimal(n / 10);
        push_char(&mut s, digit_char(n % 10));
        s
    }
}

/// Fold the checksum over a byte vector.
fn checksum_of_bytes(bytes: &Vec<u8>) -> (r: u64)
    ensures
        r as int == checksum(bytes@),
        r < 1_000_000_007,
{
    let mut sum: u64 = 0;
    let mut i: usize = 0;
    while i < bytes.len()
        invariant
            i <= bytes@.len(),
            sum < 1_000_000_007,
            sum as int == checksum(bytes@.take(i as int)),
        decreases bytes@.len() - i,
    {
        let b = bytes[i];
        sum = (sum * 31 + b as u64) % 1_000_000_007;
        i = i + 1;
        proof {
            let t = bytes@.take(i as int);
            assert(t.drop_last() =~= bytes@.take(i as int - 1));
            assert(t.last() == b);
        }
    }
    proof {
        assert(bytes@.take(bytes@.len() as int) =~= bytes@);
    }
    sum
}

/// Encode a logical endpoint name as a wire-safe service identifier:
/// the fixed prefix, then the sanitized input truncated to fit, then the
/// decimal checksum of the raw bytes of the whole original input.
pub fn sanitize_and_checksum(input: &str) -> (r: String)
    ensures
        r@ == encoded(input@),
{
    let bytes = input.as_bytes_vec();
    let sum = checksum_of_bytes(&bytes);
    let cks = u64_to_decimal(sum);
    proof {
        lemma_checksum_range(encode_utf8(input@));
        assert(cks@ == checksum_digits(input@));
        reveal_with_fuel(pow10, 11);
        assert(pow10(10) == 10_000_000_000);
        lemma_decimal_len(sum as nat, 10);
    }
    let cks_len = cks.as_str().unicode_len();
    let limit: usize = if 5 + cks_len <= 256 {
        256 - 5 - cks_len
    } else {
        0
    };
    proof {
        assert(limit as nat == body_limit(checksum_digits(input@).len()));
    }
    let n = input.unicode_len();
    let body_len: usize = if n > limit {
        limit
    } else {
        n
    };
    let mut out = String::from_str("ros2_");
    proof {
        reveal_strlit("ros2_");
        assert(out@ =~= spec_prefix());
    }
    let mut i: usize = 0;
    while i < body_len
        invariant
            i <= body_len,
            body_len <= input@.len(),
            out@ == spec_prefix() + sanitized(input@.take(i as int)),
        decreases body_len - i,
    {
        let c = input.get_char(i);
        let sc = sanitize_char_exec(c);
        push_char(&mut out, sc);
        i = i + 1;
        proof {
            assert(sanitized(input@.take(i as int)) =~= sanitized(
                input@.take(i as int - 1),
            ).push(sanitize_char(input@[i as int - 1])));
            assert(out@ =~= spec_prefix() + sanitized(input@.take(i as int)));
        }
    }
    proof {
        assert(sanitized(input@).len() == input@.len());
        if input@.len() > limit as nat {
            assert(sanitized(input@.take(body_len as int)) =~= sanitized(input@).take(
                body_len as int,
            ));
        } else {
            assert(input@.take(body_len as int) =~= input@);
        }
        assert(sanitized(input@.take(body_len as int)) == encoded_body(input@));
    }
    out.append(cks.as_str());
    proof {
        assert(out@ =~= spec_prefix() + encoded_body(input@) + checksum_digits(input@));
    }
    out
}

/// Encoding is deterministic: any two results for the same input are equal.
pub proof fn lemma_encode_deterministic(s: Seq<char>, r1: Seq<char>, r2: Seq<char>)
    requires
        r1 == encoded(s),
        r2 == encoded(s),
    ensures
        r1 == r2,
{
}

/// The body of an encoded identifier holds only ASCII letters, digits and
/// underscore.
pub proof fn lemma_body_charset(s: Seq<char>)
    ensures
        forall|i: int|
            0 <= i < encoded_body(s).len() ==> is_ident_char(#[trigger] encoded_body(s)[i]),
{
    assert forall|i: int| 0 <= i < encoded_body(s).len() implies is_ident_char(
        #[trigger] encoded_body(s)[i],
    ) by {
        assert(encoded_body(s)[i] == sanitize_char(s[i]));
    }
}

/// An encoded identifier never exceeds the maximum total length.
pub proof fn lemma_length_bound(s: Seq<char>)
    ensures
        encoded(s).len() <= 256,
{
    lemma_checksum_range(encode_utf8(s));
    reveal_with_fuel(pow10, 11);
    assert(pow10(10) == 10_000_000_000);
    lemma_decimal_len(checksum(encode_utf8(s)) as nat, 10);
}

/// Two inputs whose sanitized, truncated bodies agree still encode
/// differently whenever their checksums differ: the checksum suffix alone
/// disambiguates them.
pub proof fn lemma_checksum_disambiguates(s1: Seq<char>, s2: Seq<char>)
    requires
        encoded_body(s1) == encoded_body(s2),
        checksum(encode_utf8(s1)) != checksum(encode_utf8(s2)),
    ensures
        encoded(s1) != encoded(s2),
{
    lemma_checksum_range(encode_utf8(s1));
    lemma_checksum_range(encode_utf8(s2));
    if encoded(s1) == encoded(s2) {
        let head = spec_prefix() + encoded_body(s1);
        let c1 = checksum_digits(s1);
        let c2 = checksum_digits(s2);
        assert(encoded(s1).len() == head.len() + c1.len());
        assert(encoded(s2).len() == head.len() + c2.len());
        assert(c1.len() == c2.len());
        assert forall|j: int| 0 <= j < c1.len() implies c1[j] == c2[j] by {
            assert(c1[j] == encoded(s1)[head.len() + j]);
            assert(c2[j] == encoded(s2)[head.len() + j]);
        }
        assert(c1 =~= c2);
        lemma_decimal_injective(
            checksum(encode_utf8(s1)) as nat,
            checksum(encode_utf8(s2)) as nat,
        );
    }
}

} // verus!
