//! Decimal and hexadecimal text, and the parts of `std`'s string handling the
//! rest of the library leans on.

use vstd::prelude::*;

verus! {

/// `String::push` appends one character.
pub assume_specification[ String::push ](s: &mut String, c: char)
    ensures
        final(s)@ == old(s)@.push(c),
;

/// `str::trim` drops leading and trailing whitespace, which is the Unicode
/// property White_Space.
pub assume_specification[ str::trim ](s: &str) -> (trimmed_s: &str)
    ensures
        trimmed_s@ == trimmed(s@),
;

/// What `str::to_uppercase` makes of text that is not all ASCII.
pub uninterp spec fn unicode_uppercase(s: Seq<char>) -> Seq<char>;

/// `str::to_uppercase`: ASCII letters become capitals and other ASCII characters
/// stay, and on any other text the result depends on the text alone.
pub assume_specification[ str::to_uppercase ](s: &str) -> (upper: String)
    ensures
        upper@ == (if vstd::utf8::is_ascii_chars(s@) {
            s@.map_values(|c: char| ascii_uppercase(c))
        } else {
            unicode_uppercase(s@)
        }),
;

/// An ASCII letter as a capital, and any other character as it is.
pub open spec fn ascii_uppercase(c: char) -> char {
    if 'a' <= c <= 'z' {
        (c as u8 - 32) as char
    } else {
        c
    }
}

/// Text in capitals.
pub open spec fn uppercased(s: Seq<char>) -> Seq<char> {
    if vstd::utf8::is_ascii_chars(s) {
        s.map_values(|c: char| ascii_uppercase(c))
    } else {
        unicode_uppercase(s)
    }
}

/// Whether a character has the Unicode property White_Space.
pub open spec fn is_space(c: char) -> bool {
    ||| '\u{9}' <= c <= '\u{d}'
    ||| c == ' '
    ||| c == '\u{85}'
    ||| c == '\u{a0}'
    ||| c == '\u{1680}'
    ||| '\u{2000}' <= c <= '\u{200a}'
    ||| c == '\u{2028}'
    ||| c == '\u{2029}'
    ||| c == '\u{202f}'
    ||| c == '\u{205f}'
    ||| c == '\u{3000}'
}

/// Text without its leading whitespace.
pub open spec fn trimmed_start(s: Seq<char>) -> Seq<char>
    decreases s.len(),
{
    if s.len() > 0 && is_space(s[0]) {
        trimmed_start(s.drop_first())
    } else {
        s
    }
}

/// Text without its trailing whitespace.
pub open spec fn trimmed_end(s: Seq<char>) -> Seq<char>
    decreases s.len(),
{
    if s.len() > 0 && is_space(s.last()) {
        trimmed_end(s.drop_last())
    } else {
        s
    }
}

/// Text without whitespace at either end.
pub open spec fn trimmed(s: Seq<char>) -> Seq<char> {
    trimmed_end(trimmed_start(s))
}

/// Text that neither opens nor closes with whitespace is left alone.
pub proof fn nothing_to_trim(s: Seq<char>)
    requires
        s.len() > 0 ==> !is_space(s[0]) && !is_space(s.last()),
    ensures
        trimmed(s) == s,
{
}

/// Trimming leaves nothing to trim.
pub proof fn trimming_once_is_enough(s: Seq<char>)
    ensures
        trimmed(trimmed(s)) == trimmed(s),
{
    start_is_bare(s);
    end_is_bare(trimmed_start(s));
}

proof fn start_is_bare(s: Seq<char>)
    ensures
        trimmed_start(s).len() > 0 ==> !is_space(trimmed_start(s)[0]),
    decreases s.len(),
{
    if s.len() > 0 && is_space(s[0]) {
        start_is_bare(s.drop_first());
    }
}

proof fn end_is_bare(s: Seq<char>)
    ensures
        trimmed_end(s).len() > 0 ==> !is_space(trimmed_end(s).last()) && trimmed_end(s)[0] == s[0],
    decreases s.len(),
{
    if s.len() > 0 && is_space(s.last()) {
        end_is_bare(s.drop_last());
    }
}

/// Padding does not show once text is trimmed.
pub proof fn padding_is_trimmed(before: Seq<char>, s: Seq<char>, after: Seq<char>)
    requires
        s.len() > 0,
        !is_space(s[0]),
        !is_space(s.last()),
        forall|i: int| 0 <= i < before.len() ==> is_space(#[trigger] before[i]),
        forall|i: int| 0 <= i < after.len() ==> is_space(#[trigger] after[i]),
    ensures
        trimmed(before + s + after) == s,
    decreases before.len() + after.len(),
{
    let whole = before + s + after;
    if before.len() > 0 {
        assert(whole[0] == before[0]);
        assert(whole.drop_first() =~= before.drop_first() + s + after);
        padding_is_trimmed(before.drop_first(), s, after);
    } else if after.len() > 0 {
        assert(whole[0] == s[0]);
        assert(whole.last() == after.last());
        assert(whole.drop_last() =~= before + s + after.drop_last());
        assert((before + s + after.drop_last())[0] == s[0]);
        padding_is_trimmed(before, s, after.drop_last());
    } else {
        assert(whole =~= s);
    }
}

/// Two texts, one behind the other.
pub fn joined(one: &str, other: &str) -> (both: String)
    ensures
        both@ == one@ + other@,
{
    let mut both = one.to_string();
    both.append(other);
    both
}

/// Whether two texts are the same.
pub fn same(one: &str, other: &str) -> (same: bool)
    ensures
        same == (one@ == other@),
{
    one.to_string() == other.to_string()
}

/// Whether a character has the Unicode property White_Space.
pub fn is_whitespace(c: char) -> (space: bool)
    ensures
        space == is_space(c),
{
    (c >= '\u{9}' && c <= '\u{d}') || c == ' ' || c == '\u{85}' || c == '\u{a0}' || c == '\u{1680}'
        || (c >= '\u{2000}' && c <= '\u{200a}') || c == '\u{2028}' || c == '\u{2029}' || c
        == '\u{202f}' || c == '\u{205f}' || c == '\u{3000}'
}

/// The character of a decimal digit.
pub open spec fn digit(d: nat) -> char {
    ('0' as nat + d) as char
}

/// A number in decimal, without leading zeros.
pub open spec fn decimal(n: nat) -> Seq<char>
    decreases n,
{
    if n < 10 {
        seq![digit(n)]
    } else {
        decimal(n / 10).push(digit(n % 10))
    }
}

/// A number written in decimal.
pub fn decimal_string(n: u64) -> (shown: String)
    ensures
        shown@ == decimal(n as nat),
    decreases n,
{
    let mut shown = if n < 10 {
        String::new()
    } else {
        decimal_string(n / 10)
    };
    shown.push((48u8 + (n % 10) as u8) as char);
    shown
}

/// The lower-case hexadecimal digit of a value below sixteen.
pub open spec fn hex_digit(v: u8) -> char {
    if v < 10 {
        ('0' as u8 + v) as char
    } else {
        ('a' as u8 + (v - 10)) as char
    }
}

/// Bytes in lower-case hexadecimal, two digits each.
pub open spec fn hex(bytes: Seq<u8>) -> Seq<char> {
    Seq::new(
        2 * bytes.len(),
        |i: int| hex_digit(if i % 2 == 0 { bytes[i / 2] / 16 } else { bytes[i / 2] % 16 }),
    )
}

/// The value of a hexadecimal digit in either case.
pub open spec fn hex_value(c: u8) -> Option<u8> {
    if 48 <= c <= 57 {
        Some((c - 48) as u8)
    } else if 97 <= c <= 102 {
        Some((c - 97 + 10) as u8)
    } else if 65 <= c <= 70 {
        Some((c - 65 + 10) as u8)
    } else {
        None
    }
}

/// The bytes that pairs of hexadecimal digits spell.
pub open spec fn unhex(digits: Seq<u8>) -> Seq<u8> {
    Seq::new(
        digits.len() / 2,
        |i: int|
            (hex_value(digits[2 * i]).unwrap() * 16 + hex_value(digits[2 * i + 1]).unwrap()) as u8,
    )
}

/// Whether every byte is a hexadecimal digit.
pub open spec fn all_hex(digits: Seq<u8>) -> bool {
    forall|i: int| 0 <= i < digits.len() ==> hex_value(#[trigger] digits[i]) is Some
}

/// A digit's value.
pub fn hex_nibble(character: u8) -> (value: Option<u8>)
    ensures
        value == hex_value(character),
        value matches Some(v) ==> v < 16,
{
    if 48 <= character && character <= 57 {
        Some(character - 48)
    } else if 97 <= character && character <= 102 {
        Some(character - 97 + 10)
    } else if 65 <= character && character <= 70 {
        Some(character - 65 + 10)
    } else {
        None
    }
}

fn push_hex_digit(shown: &mut String, v: u8)
    requires
        v < 16,
    ensures
        final(shown)@ == old(shown)@.push(hex_digit(v)),
{
    if v < 10 {
        shown.push((48u8 + v) as char);
    } else {
        shown.push((97u8 + (v - 10)) as char);
    }
}

/// Bytes written in lower-case hexadecimal.
pub fn hex_string(bytes: &[u8]) -> (shown: String)
    ensures
        shown@ == hex(bytes@),
{
    let mut shown = String::new();
    let mut i: usize = 0;
    while i < bytes.len()
        invariant
            i <= bytes@.len(),
            shown@ == hex(bytes@.take(i as int)),
        decreases bytes@.len() - i,
    {
        let byte: u8 = bytes[i];
        let ghost before = shown@;
        push_hex_digit(&mut shown, byte / 16);
        push_hex_digit(&mut shown, byte % 16);
        proof {
            let now = hex(bytes@.take(i + 1));
            assert forall|j: int| 0 <= j < now.len() implies shown@[j] == now[j] by {
                if j < 2 * i {
                    assert(shown@[j] == before[j]);
                    assert(bytes@.take(i + 1)[j / 2] == bytes@.take(i as int)[j / 2]);
                }
            }
            assert(shown@ =~= now);
        }
        i += 1;
    }
    assert(bytes@.take(i as int) =~= bytes@);
    shown
}

/// Reading hexadecimal back gives the bytes that were written, and what was
/// written needs no trimming.
pub proof fn hex_round_trips(bytes: Seq<u8>)
    ensures
        vstd::utf8::encode_utf8(hex(bytes)).len() == 2 * bytes.len(),
        all_hex(vstd::utf8::encode_utf8(hex(bytes))),
        unhex(vstd::utf8::encode_utf8(hex(bytes))) == bytes,
        trimmed(hex(bytes)) == hex(bytes),
{
    let shown = hex(bytes);
    assert forall|i: int| 0 <= i < shown.len() implies '\0' <= #[trigger] shown[i] <= '\u{7f}'
        && !is_space(shown[i]) by {}
    assert(vstd::utf8::is_ascii_chars(shown));
    vstd::utf8::is_ascii_chars_encode_utf8(shown);
    let digits = vstd::utf8::encode_utf8(shown);
    assert forall|i: int| 0 <= i < digits.len() implies hex_value(#[trigger] digits[i]) is Some by {
        assert(digits[i] == shown[i] as u8);
    }
    assert forall|i: int| 0 <= i < bytes.len() implies unhex(digits)[i] == bytes[i] by {
        assert(digits[2 * i] == shown[2 * i] as u8);
        assert(digits[2 * i + 1] == shown[2 * i + 1] as u8);
        assert((2 * i) / 2 == i && (2 * i + 1) / 2 == i);
    }
    assert(unhex(digits) =~= bytes);
    nothing_to_trim(shown);
}

/// A number in decimal is one digit or more, from 0 to 9, and starts with a zero only
/// where it is zero.
pub proof fn a_decimal_is_digits(n: nat, i: int)
    requires
        0 <= i < decimal(n).len(),
    ensures
        decimal(n).len() > 0,
        '0' <= decimal(n)[i] <= '9',
        n > 0 ==> decimal(n)[0] != '0',
    decreases n,
{
    if n >= 10 {
        a_decimal_is_digits(n / 10, 0);
        if i < decimal(n).len() - 1 {
            a_decimal_is_digits(n / 10, i);
        }
    }
}

/// No two numbers are written alike.
pub proof fn a_decimal_names_one_number(one: nat, two: nat)
    requires
        decimal(one) == decimal(two),
    ensures
        one == two,
    decreases one,
{
    if one >= 10 && two >= 10 {
        let (a, b) = (decimal(one), decimal(two));
        assert(a.drop_last() =~= decimal(one / 10));
        assert(b.drop_last() =~= decimal(two / 10));
        assert(a.last() == digit(one % 10) && b.last() == digit(two % 10));
        assert(digit(one % 10) as nat == 48 + one % 10 && digit(two % 10) as nat == 48 + two % 10);
        a_decimal_names_one_number(one / 10, two / 10);
    } else if one >= 10 {
        a_decimal_has_a_digit(one / 10);
        assert(decimal(one).len() == decimal(one / 10).len() + 1 && decimal(two).len() == 1);
    } else if two >= 10 {
        a_decimal_has_a_digit(two / 10);
        assert(decimal(two).len() == decimal(two / 10).len() + 1 && decimal(one).len() == 1);
    } else {
        assert(decimal(one)[0] == digit(one) && decimal(two)[0] == digit(two));
        assert(digit(one) as nat == 48 + one && digit(two) as nat == 48 + two);
    }
}

proof fn a_decimal_has_a_digit(n: nat)
    ensures
        decimal(n).len() > 0,
{
}

/// Bytes in hexadecimal are two digits each, of 0 to 9 and a to f, the high half of a
/// byte before its low half.
pub proof fn a_byte_is_two_digits(bytes: Seq<u8>, i: int)
    requires
        0 <= i < bytes.len(),
    ensures
        hex(bytes).len() == 2 * bytes.len(),
        hex(bytes)[2 * i] as int == bytes[i] / 16 + if bytes[i] / 16 < 10 {
            48int
        } else {
            87int
        },
        hex(bytes)[2 * i + 1] as int == bytes[i] % 16 + if bytes[i] % 16 < 10 {
            48int
        } else {
            87int
        },
{
    assert((2 * i) / 2 == i && (2 * i) % 2 == 0);
    assert((2 * i + 1) / 2 == i && (2 * i + 1) % 2 == 1);
}

/// Trimming takes whitespace off both ends and nothing else: what is left is a stretch
/// of the text that neither opens nor closes with whitespace, and all around it is.
pub proof fn trimming_takes_only_whitespace(s: Seq<char>) -> (cut: (int, int))
    ensures
        0 <= cut.0 <= cut.1 <= s.len(),
        trimmed(s) == s.subrange(cut.0, cut.1),
        forall|i: int| 0 <= i < cut.0 ==> is_space(#[trigger] s[i]),
        forall|i: int| cut.1 <= i < s.len() ==> is_space(#[trigger] s[i]),
        cut.0 < cut.1 ==> !is_space(s[cut.0]) && !is_space(s[cut.1 - 1]),
    decreases s.len(),
{
    if s.len() > 0 && is_space(s[0]) {
        let rest = s.drop_first();
        let (from, to) = trimming_takes_only_whitespace(rest);
        assert(rest.subrange(from, to) =~= s.subrange(from + 1, to + 1));
        assert forall|i: int| 0 <= i < from + 1 implies is_space(#[trigger] s[i]) by {
            if i > 0 {
                assert(rest[i - 1] == s[i]);
            }
        }
        assert forall|i: int| to + 1 <= i < s.len() implies is_space(#[trigger] s[i]) by {
            assert(rest[i - 1] == s[i]);
        }
        (from + 1, to + 1)
    } else {
        let to = trimming_the_end(s);
        if to == 0 && s.len() > 0 {
            assert(is_space(s[0]));
        }
        (0, to)
    }
}

proof fn trimming_the_end(s: Seq<char>) -> (to: int)
    ensures
        0 <= to <= s.len(),
        trimmed_end(s) == s.subrange(0, to),
        forall|i: int| to <= i < s.len() ==> is_space(#[trigger] s[i]),
        to > 0 ==> !is_space(s[to - 1]),
    decreases s.len(),
{
    if s.len() > 0 && is_space(s.last()) {
        let before = s.drop_last();
        let to = trimming_the_end(before);
        assert(before.subrange(0, to) =~= s.subrange(0, to));
        assert forall|i: int| to <= i < s.len() implies is_space(#[trigger] s[i]) by {
            if i < s.len() - 1 {
                assert(before[i] == s[i]);
            }
        }
        to
    } else {
        assert(s.subrange(0, s.len() as int) =~= s);
        s.len() as int
    }
}

/// Hexadecimal is read in either case: the digits, and the letters up to F, each for what
/// it stands for. No other character is a digit.
pub proof fn either_case_reads_alike(k: u8, c: u8)
    ensures
        k < 10 ==> hex_value((48 + k) as u8) == Some(k),
        10 <= k < 16 ==> hex_value((87 + k) as u8) == Some(k) && hex_value((55 + k) as u8) == Some(
            k,
        ),
        c < 48 || 57 < c < 65 || 70 < c < 97 || 102 < c ==> hex_value(c) is None,
{
}

/// Two digits spell a byte, the first its high half.
pub proof fn two_digits_spell_a_byte(digits: Seq<u8>, i: int)
    requires
        all_hex(digits),
        0 <= 2 * i,
        2 * i + 1 < digits.len(),
    ensures
        unhex(digits).len() == digits.len() / 2,
        unhex(digits)[i] == hex_value(digits[2 * i])->0 * 16 + hex_value(digits[2 * i + 1])->0,
{
    assert(hex_value(digits[2 * i]) is Some && hex_value(digits[2 * i + 1]) is Some);
}

} // verus!
