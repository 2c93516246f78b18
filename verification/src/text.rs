//! Mathematical models of the two stable text encodings: plain decimal
//! integers (used for `BigInt` values) and lowercase hexadecimal (used for
//! `Bytes` values), together with the round-trip facts about them.
use vstd::prelude::*;

verus! {

// ---------------------------------------------------------------------------
// Decimal text
// ---------------------------------------------------------------------------
/// `c` is an ASCII decimal digit.
pub open spec fn is_digit(c: char) -> bool {
    48 <= c as u32 <= 57
}

/// The numeric value of the decimal digit `c`.
pub open spec fn digit_val(c: char) -> int {
    c as u32 - 48
}

/// Every character of `s` is a decimal digit.
pub open spec fn is_digits(s: Seq<char>) -> bool {
    forall|i: int| 0 <= i < s.len() ==> is_digit(#[trigger] s[i])
}

/// The integer denoted by the digit string `s`, most significant digit first.
pub open spec fn digits_val(s: Seq<char>) -> int
    decreases s.len(),
{
    if s.len() == 0 {
        0
    } else {
        digits_val(s.drop_last()) * 10 + digit_val(s.last())
    }
}

/// `s` is a decimal integer: an optional leading `-`, then at least one
/// digit and nothing else.
pub open spec fn is_decimal_text(s: Seq<char>) -> bool {
    if s.len() == 0 {
        false
    } else if s[0] == '-' {
        s.len() >= 2 && is_digits(s.skip(1))
    } else {
        is_digits(s)
    }
}

/// The integer denoted by the decimal text `s`.
pub open spec fn dec_value(s: Seq<char>) -> int
    recommends
        is_decimal_text(s),
{
    if s.len() > 0 && s[0] == '-' {
        -digits_val(s.skip(1))
    } else {
        digits_val(s)
    }
}

/// The digit character for `d`, which must be between 0 and 9.
pub open spec fn digit_char(d: int) -> char {
    if d == 0 {
        '0'
    } else if d == 1 {
        '1'
    } else if d == 2 {
        '2'
    } else if d == 3 {
        '3'
    } else if d == 4 {
        '4'
    } else if d == 5 {
        '5'
    } else if d == 6 {
        '6'
    } else if d == 7 {
        '7'
    } else if d == 8 {
        '8'
    } else {
        '9'
    }
}

/// The digits of the non-negative integer `n`, with no leading zeros other
/// than for `n == 0` itself.
pub open spec fn dec_digits(n: int) -> Seq<char>
    recommends
        n >= 0,
    decreases n,
{
    if n < 10 {
        seq![digit_char(n)]
    } else {
        dec_digits(n / 10).push(digit_char(n % 10))
    }
}

/// The canonical decimal rendering of `n`: a `-` sign exactly when `n` is
/// negative, then the digits of its magnitude without leading zeros.
pub open spec fn dec_rep(n: int) -> Seq<char> {
    if n < 0 {
        seq!['-'] + dec_digits(-n)
    } else {
        dec_digits(n)
    }
}

/// `s` is the canonical decimal rendering of the integer it denotes.
pub open spec fn is_canonical_decimal(s: Seq<char>) -> bool {
    is_decimal_text(s) && s == dec_rep(dec_value(s))
}

/// The digits of a non-negative integer form a non-empty digit string that
/// denotes the integer itself.
pub proof fn lemma_dec_digits_val(n: int)
    requires
        n >= 0,
    ensures
        dec_digits(n).len() >= 1,
        is_digits(dec_digits(n)),
        digits_val(dec_digits(n)) == n,
    decreases n,
{
    if n < 10 {
        reveal_with_fuel(digits_val, 2);
        let s = dec_digits(n);
        assert(s =~= seq![digit_char(n)]);
        assert(s.drop_last() =~= Seq::<char>::empty());
        assert(digit_val(digit_char(n)) == n);
    } else {
        lemma_dec_digits_val(n / 10);
        let s = dec_digits(n);
        let p = dec_digits(n / 10);
        assert(s == p.push(digit_char(n % 10)));
        assert(s.drop_last() =~= p);
        assert(s.last() == digit_char(n % 10));
        assert forall|i: int| 0 <= i < s.len() implies is_digit(#[trigger] s[i]) by {
            if i < p.len() {
                assert(s[i] == p[i]);
            }
        }
        assert(digits_val(s) == n / 10 * 10 + n % 10);
    }
}

/// The canonical decimal rendering round-trips: it is valid decimal text and
/// denotes the integer it was made from.
pub proof fn lemma_dec_round_trip(n: int)
    ensures
        is_decimal_text(dec_rep(n)),
        dec_value(dec_rep(n)) == n,
{
    if n < 0 {
        lemma_dec_digits_val(-n);
        let s = dec_rep(n);
        assert(s == seq!['-'] + dec_digits(-n));
        assert(s[0] == '-');
        assert(s.skip(1) =~= dec_digits(-n));
    } else {
        lemma_dec_digits_val(n);
        let s = dec_rep(n);
        assert(is_digit(s[0]));
        assert(s[0] != '-');
    }
}

/// Canonical renderings are determined by the value they denote, so a value
/// rendered canonically stays canonical.
pub proof fn lemma_dec_rep_canonical(n: int)
    ensures
        is_canonical_decimal(dec_rep(n)),
{
    lemma_dec_round_trip(n);
}

// ---------------------------------------------------------------------------
// Little-endian signed bytes
// ---------------------------------------------------------------------------
/// The value of `bs` read as an unsigned little-endian integer.
pub open spec fn le_unsigned(bs: Seq<u8>) -> int
    decreases bs.len(),
{
    if bs.len() == 0 {
        0
    } else {
        bs[0] + 256 * le_unsigned(bs.skip(1))
    }
}

/// 256 raised to the power `n`.
pub open spec fn pow256(n: nat) -> int
    decreases n,
{
    if n == 0 {
        1
    } else {
        256 * pow256((n - 1) as nat)
    }
}

/// The value of `bs` read as a two's-complement little-endian signed
/// integer; the empty sequence denotes zero.
pub open spec fn le_signed(bs: Seq<u8>) -> int {
    if bs.len() == 0 {
        0
    } else if bs.last() >= 128 {
        le_unsigned(bs) - pow256(bs.len())
    } else {
        le_unsigned(bs)
    }
}

// ---------------------------------------------------------------------------
// Hexadecimal text
// ---------------------------------------------------------------------------
/// `c` is a hexadecimal digit, in either case.
pub open spec fn is_hex_digit(c: char) -> bool {
    (48 <= c as u32 <= 57) || (97 <= c as u32 <= 102) || (65 <= c as u32 <= 70)
}

/// The numeric value of the hexadecimal digit `c`.
pub open spec fn hex_digit_val(c: char) -> int {
    if 48 <= c as u32 <= 57 {
        c as u32 - 48
    } else if 97 <= c as u32 <= 102 {
        c as u32 - 87
    } else {
        c as u32 - 55
    }
}

/// `s` is hexadecimal text: an even number of characters, each a hex digit
/// in either case.
pub open spec fn is_hex_text(s: Seq<char>) -> bool {
    s.len() % 2 == 0 && forall|i: int| 0 <= i < s.len() ==> is_hex_digit(#[trigger] s[i])
}

/// The bytes denoted by the hexadecimal text `s`, two digits per byte.
pub open spec fn hex_bytes(s: Seq<char>) -> Seq<u8>
    recommends
        is_hex_text(s),
    decreases s.len(),
{
    if s.len() < 2 {
        Seq::empty()
    } else {
        seq![(hex_digit_val(s[0]) * 16 + hex_digit_val(s[1])) as u8] + hex_bytes(s.skip(2))
    }
}

/// The lowercase hexadecimal digit character for `d`, which must be between
/// 0 and 15.
pub open spec fn hex_char(d: int) -> char {
    if d == 0 {
        '0'
    } else if d == 1 {
        '1'
    } else if d == 2 {
        '2'
    } else if d == 3 {
        '3'
    } else if d == 4 {
        '4'
    } else if d == 5 {
        '5'
    } else if d == 6 {
        '6'
    } else if d == 7 {
        '7'
    } else if d == 8 {
        '8'
    } else if d == 9 {
        '9'
    } else if d == 10 {
        'a'
    } else if d == 11 {
        'b'
    } else if d == 12 {
        'c'
    } else if d == 13 {
        'd'
    } else if d == 14 {
        'e'
    } else {
        'f'
    }
}

/// The canonical lowercase hexadecimal rendering of `bs`, two digits per
/// byte.
pub open spec fn hex_of(bs: Seq<u8>) -> Seq<char>
    decreases bs.len(),
{
    if bs.len() == 0 {
        Seq::empty()
    } else {
        seq![hex_char(bs[0] as int / 16), hex_char(bs[0] as int % 16)] + hex_of(bs.skip(1))
    }
}

/// `s` with every uppercase hexadecimal digit replaced by its lowercase
/// form.
pub open spec fn lower_hex(s: Seq<char>) -> Seq<char> {
    s.map_values(|c: char| if 65 <= c as u32 <= 70 { ((c as u32 + 32) as u8) as char } else { c })
}

/// Lowercase hexadecimal renderings round-trip: the rendering of any byte
/// sequence is valid hexadecimal text and denotes those bytes.
pub proof fn lemma_hex_round_trip(bs: Seq<u8>)
    ensures
        is_hex_text(hex_of(bs)),
        hex_bytes(hex_of(bs)) == bs,
    decreases bs.len(),
{
    if bs.len() == 0 {
        assert(hex_bytes(hex_of(bs)) =~= bs);
    } else {
        lemma_hex_round_trip(bs.skip(1));
        let b = bs[0];
        let s = hex_of(bs);
        let t = hex_of(bs.skip(1));
        assert(s == seq![hex_char(b as int / 16), hex_char(b as int % 16)] + t);
        assert(s.len() == 2 + t.len());
        assert forall|i: int| 0 <= i < s.len() implies is_hex_digit(#[trigger] s[i]) by {
            if i >= 2 {
                assert(s[i] == t[i - 2]);
            }
        }
        assert(s.skip(2) =~= t);
        assert(hex_digit_val(hex_char(b as int / 16)) == b as int / 16);
        assert(hex_digit_val(hex_char(b as int % 16)) == b as int % 16);
        assert(b as int / 16 * 16 + b as int % 16 == b);
        assert(hex_bytes(s) =~= bs);
    }
}

/// Rendering the value of a hexadecimal digit yields the digit itself with
/// an uppercase letter folded to lowercase.
proof fn lemma_hex_char_of_digit(c: char)
    requires
        is_hex_digit(c),
    ensures
        hex_char(hex_digit_val(c)) == (if 65 <= c as u32 <= 70 {
            ((c as u32 + 32) as u8) as char
        } else {
            c
        }),
{
}

/// Decoding hexadecimal text and rendering the bytes again yields the same
/// text with its letters folded to lowercase: decoding is case-insensitive
/// and the canonical output is always lowercase.
pub proof fn lemma_hex_canonical(s: Seq<char>)
    requires
        is_hex_text(s),
    ensures
        hex_of(hex_bytes(s)) == lower_hex(s),
    decreases s.len(),
{
    if s.len() == 0 {
        assert(hex_of(hex_bytes(s)) =~= lower_hex(s));
    } else {
        assert(is_hex_digit(s[0]));
        assert(is_hex_digit(s[1]));
        assert forall|i: int| 0 <= i < s.skip(2).len() implies is_hex_digit(
            #[trigger] s.skip(2)[i],
        ) by {
            assert(s.skip(2)[i] == s[i + 2]);
        }
        lemma_hex_canonical(s.skip(2));
        let d0 = hex_digit_val(s[0]);
        let d1 = hex_digit_val(s[1]);
        let b = (d0 * 16 + d1) as u8;
        assert(0 <= d0 < 16 && 0 <= d1 < 16);
        assert(b == d0 * 16 + d1);
        assert(b as int / 16 == d0 && b as int % 16 == d1) by {
            assert(d0 * 16 + d1 == 16 * d0 + d1);
            vstd::arithmetic::div_mod::lemma_fundamental_div_mod_converse(
                b as int,
                16,
                d0,
                d1,
            );
        }
        lemma_hex_char_of_digit(s[0]);
        lemma_hex_char_of_digit(s[1]);
        assert(lower_hex(s).len() == s.len());
        assert(lower_hex(s)[0] == (if 65 <= s[0] as u32 <= 70 {
            ((s[0] as u32 + 32) as u8) as char
        } else {
            s[0]
        }));
        assert(lower_hex(s)[1] == (if 65 <= s[1] as u32 <= 70 {
            ((s[1] as u32 + 32) as u8) as char
        } else {
            s[1]
        }));
        assert(hex_char(d0) == lower_hex(s)[0]);
        assert(hex_char(d1) == lower_hex(s)[1]);
        assert(hex_bytes(s) == seq![b] + hex_bytes(s.skip(2)));
        assert(hex_bytes(s)[0] == b);
        assert(hex_bytes(s).skip(1) =~= hex_bytes(s.skip(2)));
        assert(lower_hex(s).skip(2) =~= lower_hex(s.skip(2)));
        assert(hex_of(hex_bytes(s)) =~= lower_hex(s));
    }
}

// ---------------------------------------------------------------------------
// Lexicographic order on text
// ---------------------------------------------------------------------------
/// `a` comes strictly before `b` in lexicographic order by code point, the
/// locale-independent total order used for ordered objects.
#[verifier::opaque]
pub open spec fn lex_lt(a: Seq<char>, b: Seq<char>) -> bool
    decreases a.len(),
{
    if b.len() == 0 {
        false
    } else if a.len() == 0 {
        true
    } else if (a[0] as u32) < (b[0] as u32) {
        true
    } else if a[0] != b[0] {
        false
    } else {
        lex_lt(a.skip(1), b.skip(1))
    }
}

/// Lexicographic order is total: two pieces of text are equal or one comes
/// strictly before the other.
pub proof fn lemma_lex_total(a: Seq<char>, b: Seq<char>)
    ensures
        a == b || lex_lt(a, b) || lex_lt(b, a),
    decreases a.len(),
{
    reveal(lex_lt);
    if a.len() == 0 && b.len() == 0 {
        assert(a =~= b);
    } else if a.len() > 0 && b.len() > 0 && a[0] == b[0] {
        lemma_lex_total(a.skip(1), b.skip(1));
        if a.skip(1) == b.skip(1) {
            assert(a.skip(1).len() == a.len() - 1);
            assert(b.skip(1).len() == b.len() - 1);
            assert forall|i: int| 0 <= i < a.len() implies a[i] == b[i] by {
                if i > 0 {
                    assert(a[i] == a.skip(1)[i - 1]);
                    assert(b[i] == b.skip(1)[i - 1]);
                }
            }
            assert(a =~= b);
        }
    } else if a.len() > 0 && b.len() > 0 {
        if (a[0] as u32) < (b[0] as u32) {
            assert(lex_lt(a, b));
        } else {
            assert(a[0] != b[0]);
            vstd::utf8::char_u32_cast(a[0], a[0] as u32);
            vstd::utf8::char_u32_cast(b[0], b[0] as u32);
            assert((b[0] as u32) < (a[0] as u32));
            assert(lex_lt(b, a));
        }
    }
}

/// Lexicographic order is transitive.
pub proof fn lemma_lex_trans(a: Seq<char>, b: Seq<char>, c: Seq<char>)
    requires
        lex_lt(a, b),
        lex_lt(b, c),
    ensures
        lex_lt(a, c),
    decreases a.len(),
{
    reveal(lex_lt);
    if a.len() > 0 && b.len() > 0 && c.len() > 0 && a[0] == b[0] && b[0] == c[0] {
        lemma_lex_trans(a.skip(1), b.skip(1), c.skip(1));
    }
}

} // verus!
