//! Text encodings used by the pool: decimal numerals, lowercase hex and the
//! 64-digit hex form of 32-byte scalars.
use vstd::prelude::*;
use vstd::string::*;

verus! {

/// The character of a decimal digit `d < 10`.
pub open spec fn digit_char(d: nat) -> char {
    (d + 48) as char
}

/// The decimal numeral of `n`, without leading zeros (`"0"` for zero).
pub open spec fn decimal_digits(n: nat) -> Seq<char>
    decreases n,
{
    if n < 10 {
        seq![digit_char(n)]
    } else {
        decimal_digits(n / 10).push(digit_char(n % 10))
    }
}

/// Whether `c` is one of `'0'..='9'`.
pub open spec fn is_digit_char(c: char) -> bool {
    '0' <= c <= '9'
}

/// The value of a string of digits and underscores, underscores skipped.
pub open spec fn digits_value(s: Seq<char>) -> nat
    decreases s.len(),
{
    if s.len() == 0 {
        0
    } else if s.last() == '_' {
        digits_value(s.drop_last())
    } else {
        digits_value(s.drop_last()) * 10 + (s.last() as nat - 48) as nat
    }
}

/// A magnitude: a non-empty run of digits and underscores that starts with a digit.
pub open spec fn is_digit_run(s: Seq<char>) -> bool {
    &&& s.len() > 0
    &&& s[0] != '_'
    &&& forall|i: int| 0 <= i < s.len() ==> is_digit_char(#[trigger] s[i]) || s[i] == '_'
}

/// An unsigned decimal integer with one optional leading `+`.
pub open spec fn unsigned_decimal(s: Seq<char>) -> Option<nat> {
    let t = if s.len() > 0 && s[0] == '+' && !(s.len() > 1 && s[1] == '+') {
        s.drop_first()
    } else {
        s
    };
    if is_digit_run(t) {
        Some(digits_value(t))
    } else {
        None
    }
}

/// The residue modulo `m` that a signed decimal integer denotes: an optional
/// leading `-` negates, an optional `+` is accepted; anything else is refused.
pub open spec fn signed_decimal_residue(s: Seq<char>, m: nat) -> Option<nat> {
    if s.len() > 0 && s[0] == '-' {
        let t = if s.len() > 1 && s[1] == '+' {
            s
        } else {
            s.drop_first()
        };
        match unsigned_decimal(t) {
            Some(v) => Some(((m - v % m) as nat) % m),
            None => None,
        }
    } else {
        match unsigned_decimal(s) {
            Some(v) => Some(v % m),
            None => None,
        }
    }
}

pub proof fn lemma_decimal_digits_shape(n: nat)
    ensures
        decimal_digits(n).len() > 0,
        is_digit_char(decimal_digits(n)[0]),
        forall|i: int| 0 <= i < decimal_digits(n).len() ==> is_digit_char(#[trigger] decimal_digits(n)[i]),
        digits_value(decimal_digits(n)) == n,
    decreases n,
{
    assert(digit_char(n % 10) as nat == n % 10 + 48);
    if n >= 10 {
        lemma_decimal_digits_shape(n / 10);
        let p = decimal_digits(n / 10);
        let s = decimal_digits(n);
        assert(s.drop_last() =~= p);
        assert(s.last() == digit_char(n % 10));
        assert(digits_value(s) == digits_value(p) * 10 + n % 10);
        assert forall|i: int| 0 <= i < s.len() implies is_digit_char(#[trigger] s[i]) by {
            if i < p.len() {
                assert(s[i] == p[i]);
            }
        }
    } else {
        let s = decimal_digits(n);
        assert(s.drop_last() =~= Seq::<char>::empty());
        assert(s.last() == digit_char(n));
        assert(digits_value(s) == digits_value(s.drop_last()) * 10 + n);
    }
}

/// Printing a number in decimal and reading it back gives the number modulo `m`.
pub proof fn lemma_decimal_round_trip(n: nat, m: nat)
    requires
        m > 0,
    ensures
        signed_decimal_residue(decimal_digits(n), m) == Some(n % m),
{
    lemma_decimal_digits_shape(n);
    let s = decimal_digits(n);
    assert(s[0] != '-' && s[0] != '+' && s[0] != '_');
    assert(is_digit_run(s));
}

/// The character of a hex digit `d < 16`, lowercase.
pub open spec fn hex_char(d: nat) -> char {
    if d < 10 {
        (d + 48) as char
    } else {
        (d + 87) as char
    }
}

/// Lowercase hex of a byte string, two characters per byte, most significant nibble first.
pub open spec fn hex_lower(bytes: Seq<u8>) -> Seq<char>
    decreases bytes.len(),
{
    if bytes.len() == 0 {
        Seq::empty()
    } else {
        hex_lower(bytes.drop_last()) + seq![
            hex_char(bytes.last() as nat / 16),
            hex_char(bytes.last() as nat % 16),
        ]
    }
}

/// Whether `c` is a lowercase hex digit: `0`-`9` or `a`-`f`.
pub open spec fn is_lower_hex_digit(c: char) -> bool {
    ('0' <= c && c <= '9') || ('a' <= c && c <= 'f')
}

/// The value of a hex digit in either case, if `c` is one.
pub open spec fn hex_digit_value(c: char) -> Option<nat> {
    if '0' <= c <= '9' {
        Some((c as nat - 48) as nat)
    } else if 'a' <= c <= 'f' {
        Some((c as nat - 87) as nat)
    } else if 'A' <= c <= 'F' {
        Some((c as nat - 55) as nat)
    } else {
        None
    }
}

/// The value of a string of hex digits, most significant first.
pub open spec fn hex_value(s: Seq<char>) -> nat
    decreases s.len(),
{
    if s.len() == 0 {
        0
    } else {
        hex_value(s.drop_last()) * 16 + hex_digit_value(s.last())->0
    }
}

/// The digit written for a nibble `d < 16` is a lowercase hex digit that
/// reads back as `d`.
pub proof fn lemma_hex_char_reads_back(d: nat)
    requires
        d < 16,
    ensures
        is_lower_hex_digit(hex_char(d)),
        hex_digit_value(hex_char(d)) == Some(d),
{
    if d < 10 {
        assert(hex_char(d) as nat == d + 48);
    } else {
        assert(hex_char(d) as nat == d + 87);
    }
}

/// Lowercase hex of a byte string is two lowercase hex digits per byte that
/// denote exactly those bytes, so its value is the bytes' big-endian value.
pub proof fn lemma_hex_lower_denotes(bytes: Seq<u8>)
    ensures
        hex_lower(bytes).len() == 2 * bytes.len(),
        forall|i: int| 0 <= i < hex_lower(bytes).len() ==> is_lower_hex_digit(#[trigger] hex_lower(bytes)[i]),
        hex_denotes(hex_lower(bytes), bytes),
        hex_value(hex_lower(bytes)) == crate::field::be_value(bytes),
    decreases bytes.len(),
{
    let h = hex_lower(bytes);
    if bytes.len() > 0 {
        let init = bytes.drop_last();
        let last = bytes.last() as nat;
        lemma_hex_lower_denotes(init);
        let hi = hex_char(last / 16);
        let lo = hex_char(last % 16);
        lemma_hex_char_reads_back(last / 16);
        lemma_hex_char_reads_back(last % 16);
        let hp = hex_lower(init);
        assert(h == hp + seq![hi, lo]);
        let n = bytes.len() as int;
        assert forall|i: int| 0 <= i < h.len() implies is_lower_hex_digit(#[trigger] h[i]) by {
            if i < hp.len() {
                assert(h[i] == hp[i]);
            }
        }
        assert forall|i: int| 0 <= i < bytes.len() implies #[trigger] hex_pair_value(h, i) == Some(
            bytes[i] as nat,
        ) by {
            if i < n - 1 {
                assert(hex_pair_value(hp, i) == Some(init[i] as nat));
                assert(h[2 * i] == hp[2 * i]);
                assert(h[2 * i + 1] == hp[2 * i + 1]);
                assert(init[i] == bytes[i]);
            } else {
                assert(h[2 * i] == hi);
                assert(h[2 * i + 1] == lo);
                assert(bytes[i] as nat == last);
            }
        }
    }
    lemma_hex_all_digits(h, bytes);
    lemma_hex_denotes_value(h, bytes);
}

/// Digits that denote bytes are all hex digits.
proof fn lemma_hex_all_digits(digits: Seq<char>, bytes: Seq<u8>)
    requires
        hex_denotes(digits, bytes),
    ensures
        all_hex_digits(digits),
{
    assert forall|k: int| 0 <= k < digits.len() implies #[trigger] hex_digit_value(digits[k]) is Some by {
        let i = k / 2;
        assert(hex_pair_value(digits, i) == Some(bytes[i] as nat));
        assert(k == 2 * i || k == 2 * i + 1);
    }
}

/// The bytes that hex digits denote have the digits' value.
pub proof fn lemma_hex_denotes_value(digits: Seq<char>, bytes: Seq<u8>)
    requires
        hex_denotes(digits, bytes),
    ensures
        crate::field::be_value(bytes) == hex_value(digits),
    decreases bytes.len(),
{
    if bytes.len() > 0 {
        let n = bytes.len();
        let d2 = digits.subrange(0, 2 * n - 2);
        let b2 = bytes.drop_last();
        assert forall|i: int| 0 <= i < b2.len() implies #[trigger] hex_pair_value(d2, i) == Some(
            b2[i] as nat,
        ) by {
            assert(hex_pair_value(digits, i) == Some(bytes[i] as nat));
            assert(d2[2 * i] == digits[2 * i]);
            assert(d2[2 * i + 1] == digits[2 * i + 1]);
        }
        lemma_hex_denotes_value(d2, b2);
        let d1 = digits.drop_last();
        assert(d1.drop_last() =~= d2);
        assert(d1.last() == digits[2 * (n - 1)]);
        assert(digits.last() == digits[2 * (n - 1) + 1]);
        assert(bytes.last() == bytes[n - 1]);
        assert(hex_pair_value(digits, n - 1) == Some(bytes[n - 1] as nat));
        let h = hex_value(d2);
        let x = hex_digit_value(digits[2 * (n - 1)])->0;
        let y = hex_digit_value(digits[2 * (n - 1) + 1])->0;
        assert(bytes[n - 1] as nat == x * 16 + y);
        assert(hex_value(digits) == hex_value(d1) * 16 + y);
        assert(hex_value(d1) == h * 16 + x);
        assert((h * 16 + x) * 16 + y == h * 256 + (x * 16 + y)) by (nonlinear_arith);
    }
}

/// `s` without one leading `0x` or `0X`.
pub open spec fn strip_hex_prefix(s: Seq<char>) -> Seq<char> {
    if s.len() >= 2 && s[0] == '0' && (s[1] == 'x' || s[1] == 'X') {
        s.subrange(2, s.len() as int)
    } else {
        s
    }
}

/// The byte that hex digits `2i` and `2i + 1` of `digits` denote, if both are hex digits.
pub open spec fn hex_pair_value(digits: Seq<char>, i: int) -> Option<nat> {
    match (hex_digit_value(digits[2 * i]), hex_digit_value(digits[2 * i + 1])) {
        (Some(h), Some(l)) => Some(h * 16 + l),
        _ => None,
    }
}

/// Whether `digits` is exactly the hex of `bytes` (either case).
pub open spec fn hex_denotes(digits: Seq<char>, bytes: Seq<u8>) -> bool {
    &&& digits.len() == 2 * bytes.len()
    &&& forall|i: int|
        0 <= i < bytes.len() ==> #[trigger] hex_pair_value(digits, i) == Some(bytes[i] as nat)
}

/// Whether every character of `s` is a hex digit.
pub open spec fn all_hex_digits(s: Seq<char>) -> bool {
    forall|i: int| 0 <= i < s.len() ==> #[trigger] hex_digit_value(s[i]) is Some
}

/// A string made of the given characters.
#[verifier::external_body]
pub(crate) fn string_from_chars(chars: &Vec<char>) -> (s: String)
    ensures
        s@ == chars@,
{
    chars.iter().collect()
}

/// The characters of a string.
pub(crate) fn chars_of(s: &str) -> (v: Vec<char>)
    ensures
        v@ == s@,
{
    let mut v: Vec<char> = Vec::new();
    for c in it: s.chars()
        invariant
            it.seq() == s@,
            v@ == it.seq().take(it.index() as int),
    {
        v.push(c);
    }
    v
}

/// Appends the decimal numeral of `n` to `out`.
pub(crate) fn push_decimal(n: u64, out: &mut Vec<char>)
    ensures
        final(out)@ == old(out)@ + decimal_digits(n as nat),
    decreases n,
{
    if n >= 10 {
        push_decimal(n / 10, out);
    }
    let d = (n % 10) as u8;
    let c = (d + 48) as char;
    assert(c == digit_char((n % 10) as nat));
    out.push(c);
}

/// The decimal numeral of `n`.
pub fn u64_to_decimal(n: u64) -> (s: String)
    ensures
        s@ == decimal_digits(n as nat),
{
    let mut v: Vec<char> = Vec::new();
    push_decimal(n, &mut v);
    assert(v@ =~= decimal_digits(n as nat));
    string_from_chars(&v)
}

/// The lowercase hex digit of `d < 16`.
fn hex_char_of(d: u8) -> (c: char)
    requires
        d < 16,
    ensures
        c == hex_char(d as nat),
{
    if d < 10 {
        (d + 48) as char
    } else {
        (d + 87) as char
    }
}

/// Lowercase hex of `bytes`.
pub fn hex_encode(bytes: &[u8]) -> (s: String)
    ensures
        s@ == hex_lower(bytes@),
{
    let mut v: Vec<char> = Vec::new();
    let n = bytes.len();
    for i in 0..n
        invariant
            n == bytes@.len(),
            v@ == hex_lower(bytes@.take(i as int)),
    {
        let b = bytes[i];
        v.push(hex_char_of(b / 16));
        v.push(hex_char_of(b % 16));
        proof {
            assert(bytes@.take(i + 1).drop_last() =~= bytes@.take(i as int));
            assert(bytes@.take(i + 1).last() == b);
        }
    }
    assert(bytes@.take(n as int) =~= bytes@);
    string_from_chars(&v)
}

/// The value of a hex digit in either case.
fn hex_digit_of(c: char) -> (r: Option<u8>)
    ensures
        r is Some <==> hex_digit_value(c) is Some,
        r matches Some(d) ==> d as nat == hex_digit_value(c)->0 && d < 16,
{
    if '0' <= c && c <= '9' {
        Some((c as u32 - 48) as u8)
    } else if 'a' <= c && c <= 'f' {
        Some((c as u32 - 87) as u8)
    } else if 'A' <= c && c <= 'F' {
        Some((c as u32 - 55) as u8)
    } else {
        None
    }
}

/// Reads a 32-byte scalar written as 64 hex digits (either case), with an
/// optional `0x` or `0X` prefix.
pub fn parse_scalar_hex(s: &str) -> (r: Result<[u8; 32], String>)
    ensures
        r is Ok <==> strip_hex_prefix(s@).len() == 64 && all_hex_digits(strip_hex_prefix(s@)),
        r matches Ok(b) ==> hex_denotes(strip_hex_prefix(s@), b@),
        r matches Ok(b) ==> crate::field::be_value(b@) == hex_value(strip_hex_prefix(s@)),
        r matches Err(e) ==> strip_hex_prefix(s@).len() != 64 ==> e@
            == "scalar hex must be 64 hex digits (32 bytes)"@,
        r matches Err(e) ==> strip_hex_prefix(s@).len() == 64 ==> e@
            == "scalar hex holds a character that is not a hex digit"@,
{
    let chars = chars_of(s);
    let n = chars.len();
    let start: usize = if n >= 2 && chars[0] == '0' && (chars[1] == 'x' || chars[1] == 'X') {
        2
    } else {
        0
    };
    let ghost digits = strip_hex_prefix(s@);
    assert(digits =~= chars@.subrange(start as int, n as int));
    if n - start != 64 {
        return Err(String::from_str("scalar hex must be 64 hex digits (32 bytes)"));
    }
    let mut bytes = [0u8; 32];
    let mut i: usize = 0;
    while i < 32
        invariant
            0 <= i <= 32,
            n == chars@.len(),
            n - start == 64,
            digits == chars@.subrange(start as int, n as int),
            digits == strip_hex_prefix(s@),
            forall|j: int| 0 <= j < 2 * i ==> #[trigger] hex_digit_value(digits[j]) is Some,
            forall|j: int| 0 <= j < i ==> #[trigger] hex_pair_value(digits, j) == Some(bytes@[j] as nat),
        decreases 32 - i,
    {
        let hi = hex_digit_of(chars[start + 2 * i]);
        let lo = hex_digit_of(chars[start + 2 * i + 1]);
        match (hi, lo) {
            (Some(h), Some(l)) => {
                bytes[i] = h * 16 + l;
            },
            _ => {
                proof {
                    assert(!all_hex_digits(digits)) by {
                        if hi is None {
                            assert(hex_digit_value(digits[2 * i as int]) is None);
                        } else {
                            assert(hex_digit_value(digits[2 * i + 1]) is None);
                        }
                    }
                }
                return Err(
                    String::from_str("scalar hex holds a character that is not a hex digit"),
                );
            },
        }
        i = i + 1;
    }
    proof {
        assert forall|j: int| 0 <= j < digits.len() implies #[trigger] hex_digit_value(digits[j]) is Some by {}
        lemma_hex_denotes_value(digits, bytes@);
    }
    Ok(bytes)
}

} // verus!
