//! Decimal numbers as text.

use vstd::prelude::*;
use vstd::utf8::*;

verus! {

/// The character of a decimal digit.
pub open spec fn digit_char(digit: int) -> char {
    if digit == 0 {
        '0'
    } else if digit == 1 {
        '1'
    } else if digit == 2 {
        '2'
    } else if digit == 3 {
        '3'
    } else if digit == 4 {
        '4'
    } else if digit == 5 {
        '5'
    } else if digit == 6 {
        '6'
    } else if digit == 7 {
        '7'
    } else if digit == 8 {
        '8'
    } else {
        '9'
    }
}

/// Whether `c` is one of the ten ASCII digits.
pub open spec fn is_digit(c: char) -> bool {
    '0' <= c <= '9'
}

/// The number in decimal, without leading zeros.
pub open spec fn decimal(n: nat) -> Seq<char>
    decreases n,
{
    if n < 10 {
        seq![digit_char(n as int)]
    } else {
        decimal(n / 10).push(digit_char((n % 10) as int))
    }
}

/// The last `width` decimal digits of the number, most significant first.
pub open spec fn fixed_width(n: nat, width: nat) -> Seq<char>
    decreases width,
{
    if width == 0 {
        seq![]
    } else {
        fixed_width(n / 10, (width - 1) as nat).push(digit_char((n % 10) as int))
    }
}

/// The number that a run of digits spells.
pub open spec fn digits_value(digits: Seq<char>) -> nat
    decreases digits.len(),
{
    if digits.len() == 0 {
        0
    } else {
        digits_value(digits.drop_last()) * 10 + (digits.last() as nat - '0' as nat) as nat
    }
}

/// Whether every character is an ASCII digit.
pub open spec fn all_digits(s: Seq<char>) -> bool {
    forall|i: int| 0 <= i < s.len() ==> is_digit(#[trigger] s[i])
}

/// The `u64` that a text spells: an optional `+`, then at least one digit, in range.
pub open spec fn parsed_u64(s: Seq<char>) -> Option<u64> {
    let digits = if s.len() > 0 && s[0] == '+' {
        s.skip(1)
    } else {
        s
    };
    if digits.len() > 0 && all_digits(digits) && digits_value(digits) <= u64::MAX {
        Some(digits_value(digits) as u64)
    } else {
        None
    }
}

/// Whether `a` comes before `b` in the order of their first differing character, a proper prefix
/// coming first.
pub open spec fn lexicographically_less(a: Seq<char>, b: Seq<char>) -> bool
    decreases a.len(),
{
    if b.len() == 0 {
        false
    } else if a.len() == 0 {
        true
    } else if a[0] != b[0] {
        a[0] < b[0]
    } else {
        lexicographically_less(a.skip(1), b.skip(1))
    }
}

fn digit_text(digit: u64) -> (text: &'static str)
    requires
        digit < 10,
    ensures
        text@ == seq![digit_char(digit as int)],
{
    proof {
        reveal_strlit("0");
        reveal_strlit("1");
        reveal_strlit("2");
        reveal_strlit("3");
        reveal_strlit("4");
        reveal_strlit("5");
        reveal_strlit("6");
        reveal_strlit("7");
        reveal_strlit("8");
        reveal_strlit("9");
    }
    if digit == 0 {
        "0"
    } else if digit == 1 {
        "1"
    } else if digit == 2 {
        "2"
    } else if digit == 3 {
        "3"
    } else if digit == 4 {
        "4"
    } else if digit == 5 {
        "5"
    } else if digit == 6 {
        "6"
    } else if digit == 7 {
        "7"
    } else if digit == 8 {
        "8"
    } else {
        "9"
    }
}

/// Writes a number in decimal.
pub fn decimal_string(n: u64) -> (text: String)
    ensures
        text@ == decimal(n as nat),
    decreases n,
{
    if n < 10 {
        let mut text = String::new();
        text.append(digit_text(n));
        text
    } else {
        let mut text = decimal_string(n / 10);
        text.append(digit_text(n % 10));
        text
    }
}

/// Writes the last `width` digits of a number.
pub fn fixed_width_string(n: u64, width: usize) -> (text: String)
    ensures
        text@ == fixed_width(n as nat, width as nat),
    decreases width,
{
    if width == 0 {
        String::new()
    } else {
        let mut text = fixed_width_string(n / 10, width - 1);
        text.append(digit_text(n % 10));
        text
    }
}

/// Reads a `u64` the way `str::parse` does.
pub fn parse_u64(s: &str) -> (parsed: Option<u64>)
    ensures
        parsed == parsed_u64(s@),
{
    let len: usize = s.unicode_len();
    let start: usize = if len > 0 && s.get_char(0) == '+' {
        1
    } else {
        0
    };
    let ghost digits = if s@.len() > 0 && s@[0] == '+' {
        s@.skip(1)
    } else {
        s@
    };
    assert(digits =~= s@.skip(start as int));
    if start == len {
        return None;
    }
    let mut value: u64 = 0;
    let mut i: usize = start;
    assert(digits.take(0) =~= Seq::<char>::empty());
    while i < len
        invariant
            start <= i <= len,
            len == s@.len(),
            digits == s@.skip(start as int),
            digits == (if s@.len() > 0 && s@[0] == '+' {
                s@.skip(1)
            } else {
                s@
            }),
            all_digits(digits.take(i - start)),
            value == digits_value(digits.take(i - start)),
        decreases len - i,
    {
        let c = s.get_char(i);
        let ghost prefix = digits.take(i - start);
        let ghost longer = digits.take(i - start + 1);
        assert(c == digits[i - start]);
        assert(longer.drop_last() =~= prefix);
        assert(longer.last() == c);
        if !(c >= '0' && c <= '9') {
            assert(!is_digit(digits[i - start]));
            return None;
        }
        let digit: u64 = (c as u32 - '0' as u32) as u64;
        assert(digits_value(longer) == value * 10 + digit);
        if value > (u64::MAX - digit) / 10 {
            proof {
                lemma_digits_value_monotone(digits, i - start + 1);
            }
            return None;
        }
        value = value * 10 + digit;
        assert forall|j: int| 0 <= j < longer.len() implies is_digit(#[trigger] longer[j]) by {
            if j < prefix.len() {
                assert(longer[j] == prefix[j]);
            }
        }
        i = i + 1;
    }
    assert(digits.take(len - start) =~= digits);
    Some(value)
}

/// Adding digits never makes the number smaller.
proof fn lemma_digits_value_monotone(digits: Seq<char>, n: int)
    requires
        0 <= n <= digits.len(),
    ensures
        digits_value(digits.take(n)) <= digits_value(digits),
    decreases digits.len() - n,
{
    if n < digits.len() {
        lemma_digits_value_monotone(digits, n + 1);
        assert(digits.take(n + 1).drop_last() =~= digits.take(n));
    } else {
        assert(digits.take(n) =~= digits);
    }
}

/// Whether two texts are the same.
pub fn same_text(a: &str, b: &str) -> (same: bool)
    ensures
        same == (a@ == b@),
{
    let x = a.as_bytes();
    let y = b.as_bytes();
    proof {
        encode_utf8_decode_utf8(a@);
        encode_utf8_decode_utf8(b@);
    }
    if x.len() != y.len() {
        return false;
    }
    let mut i: usize = 0;
    while i < x.len()
        invariant
            i <= x.len() == y.len(),
            x@ == encode_utf8(a@),
            y@ == encode_utf8(b@),
            forall|j: int| 0 <= j < i ==> x@[j] == y@[j],
        decreases x.len() - i,
    {
        if x[i] != y[i] {
            return false;
        }
        i = i + 1;
    }
    assert(x@ =~= y@);
    true
}

/// Ten to the power of `exponent`.
pub open spec fn power_of_ten(exponent: nat) -> nat
    decreases exponent,
{
    if exponent == 0 {
        1
    } else {
        10 * power_of_ten((exponent - 1) as nat)
    }
}

/// A fixed-width number has exactly `width` characters, all of them digits, and spells the number
/// back when the number fits.
pub proof fn fixed_width_reads_back(n: nat, width: nat)
    ensures
        fixed_width(n, width).len() == width,
        all_digits(fixed_width(n, width)),
        n < power_of_ten(width) ==> digits_value(fixed_width(n, width)) == n,
    decreases width,
{
    if width > 0 {
        let shorter = fixed_width(n / 10, (width - 1) as nat);
        fixed_width_reads_back(n / 10, (width - 1) as nat);
        assert(fixed_width(n, width).drop_last() =~= shorter);
        assert forall|i: int| 0 <= i < width implies is_digit(
            #[trigger] fixed_width(n, width)[i],
        ) by {
            if i < width - 1 {
                assert(fixed_width(n, width)[i] == shorter[i]);
            }
        }
    }
}

proof fn lemma_less_by_prefix(a: Seq<char>, b: Seq<char>, x: char, y: char)
    requires
        a.len() == b.len(),
        lexicographically_less(a, b),
    ensures
        lexicographically_less(a.push(x), b.push(y)),
    decreases a.len(),
{
    if a.len() > 0 && a[0] == b[0] {
        lemma_less_by_prefix(a.skip(1), b.skip(1), x, y);
        assert(a.push(x).skip(1) =~= a.skip(1).push(x));
        assert(b.push(y).skip(1) =~= b.skip(1).push(y));
    }
}

proof fn lemma_less_by_last(a: Seq<char>, x: char, y: char)
    requires
        x < y,
    ensures
        lexicographically_less(a.push(x), a.push(y)),
    decreases a.len(),
{
    if a.len() > 0 {
        lemma_less_by_last(a.skip(1), x, y);
        assert(a.push(x).skip(1) =~= a.skip(1).push(x));
        assert(a.push(y).skip(1) =~= a.skip(1).push(y));
    }
}

/// Numbers of one width sort as texts the way they sort as numbers.
pub proof fn fixed_width_keeps_order(a: nat, b: nat, width: nat)
    requires
        a < b < power_of_ten(width),
    ensures
        lexicographically_less(fixed_width(a, width), fixed_width(b, width)),
    decreases width,
{
    if width > 0 {
        let shorter = (width - 1) as nat;
        if a / 10 < b / 10 {
            fixed_width_keeps_order(a / 10, b / 10, shorter);
            fixed_width_reads_back(a / 10, shorter);
            fixed_width_reads_back(b / 10, shorter);
            lemma_less_by_prefix(
                fixed_width(a / 10, shorter),
                fixed_width(b / 10, shorter),
                digit_char((a % 10) as int),
                digit_char((b % 10) as int),
            );
        } else {
            lemma_less_by_last(
                fixed_width(a / 10, shorter),
                digit_char((a % 10) as int),
                digit_char((b % 10) as int),
            );
        }
    }
}

/// Whether one byte string comes before another in the order of their first differing byte, a
/// proper prefix coming first.
pub open spec fn bytes_less(a: Seq<u8>, b: Seq<u8>) -> bool
    decreases a.len(),
{
    if b.len() == 0 {
        false
    } else if a.len() == 0 {
        true
    } else if a[0] != b[0] {
        a[0] < b[0]
    } else {
        bytes_less(a.skip(1), b.skip(1))
    }
}

/// Whether a text comes before another in the order of their UTF-8 bytes.
pub open spec fn text_before(a: Seq<char>, b: Seq<char>) -> bool {
    bytes_less(encode_utf8(a), encode_utf8(b))
}

proof fn lemma_bytes_order(a: Seq<u8>, b: Seq<u8>)
    ensures
        bytes_less(a, b) || bytes_less(b, a) || a == b,
        !(bytes_less(a, b) && bytes_less(b, a)),
        !bytes_less(a, a),
    decreases a.len(),
{
    if a.len() > 0 && b.len() > 0 && a[0] == b[0] {
        lemma_bytes_order(a.skip(1), b.skip(1));
        if a.skip(1) == b.skip(1) {
            assert(a =~= seq![a[0]] + a.skip(1));
            assert(b =~= seq![b[0]] + b.skip(1));
        }
    } else if a.len() == 0 && b.len() == 0 {
        assert(a =~= b);
    }
    if a.len() > 0 {
        lemma_bytes_order(a.skip(1), a.skip(1));
    }
}

proof fn lemma_bytes_order_transitive(a: Seq<u8>, b: Seq<u8>, c: Seq<u8>)
    requires
        bytes_less(a, b),
        bytes_less(b, c),
    ensures
        bytes_less(a, c),
    decreases a.len(),
{
    if a.len() > 0 && a[0] == b[0] && b[0] == c[0] {
        lemma_bytes_order_transitive(a.skip(1), b.skip(1), c.skip(1));
    }
}

/// Texts are in a total order.
pub proof fn texts_are_ordered(a: Seq<char>, b: Seq<char>)
    ensures
        text_before(a, b) || text_before(b, a) || a == b,
        !(text_before(a, b) && text_before(b, a)),
        !text_before(a, a),
{
    lemma_bytes_order(encode_utf8(a), encode_utf8(b));
    encode_utf8_decode_utf8(a);
    encode_utf8_decode_utf8(b);
}

/// The order of texts is transitive.
pub proof fn text_order_is_transitive(a: Seq<char>, b: Seq<char>, c: Seq<char>)
    requires
        text_before(a, b),
        text_before(b, c),
    ensures
        text_before(a, c),
{
    lemma_bytes_order_transitive(encode_utf8(a), encode_utf8(b), encode_utf8(c));
}

/// Whether a text comes before another.
pub fn is_text_before(a: &str, b: &str) -> (before: bool)
    ensures
        before == text_before(a@, b@),
{
    let x = a.as_bytes();
    let y = b.as_bytes();
    let mut i: usize = 0;
    assert(x@.skip(0) =~= x@);
    assert(y@.skip(0) =~= y@);
    while i < x.len() && i < y.len() && x[i] == y[i]
        invariant
            i <= x@.len(),
            i <= y@.len(),
            x@ == encode_utf8(a@),
            y@ == encode_utf8(b@),
            bytes_less(x@, y@) == bytes_less(x@.skip(i as int), y@.skip(i as int)),
        decreases x@.len() - i,
    {
        assert(x@.skip(i as int).skip(1) =~= x@.skip(i + 1));
        assert(y@.skip(i as int).skip(1) =~= y@.skip(i + 1));
        i = i + 1;
    }
    if i >= y.len() {
        return false;
    }
    if i >= x.len() {
        return true;
    }
    x[i] < y[i]
}

/// A digit stands behind the zero by its value.
pub proof fn digits_have_their_value(digit: int, digits: Seq<char>)
    requires
        0 <= digit < 10,
    ensures
        is_digit(digit_char(digit)),
        digit_char(digit) as int == '0' as int + digit,
        digits_value(digits.push(digit_char(digit))) == digits_value(digits) * 10 + digit,
        digits_value(seq![]) == 0,
{
    assert(digits.push(digit_char(digit)).drop_last() =~= digits);
}

/// A number is written as digits that read back as the number, with no zero in front.
pub proof fn numbers_read_back(n: nat)
    ensures
        decimal(n).len() > 0,
        all_digits(decimal(n)),
        digits_value(decimal(n)) == n,
        n > 0 ==> decimal(n)[0] != '0',
        n <= u64::MAX ==> parsed_u64(decimal(n)) == Some(n as u64),
    decreases n,
{
    if n < 10 {
        let one = seq![digit_char(n as int)];
        assert(Seq::<char>::empty().push(digit_char(n as int)) =~= one);
        digits_have_their_value(n as int, Seq::empty());
    } else {
        numbers_read_back(n / 10);
        digits_have_their_value((n % 10) as int, decimal(n / 10));
        assert(n / 10 * 10 + n % 10 == n);
    }
}

/// A text reads as a number exactly if it is made of at least one digit, after a plus sign at most, and
/// the number is not too large. It is then the number that its digits tell.
pub proof fn only_digits_are_numbers(s: Seq<char>, i: int)
    ensures
        parsed_u64(seq![]) is None,
        s.len() > 0 && all_digits(s) && digits_value(s) <= u64::MAX ==> parsed_u64(s) == Some(
            digits_value(s) as u64,
        ),
        s.len() > 0 && all_digits(s) && digits_value(s) <= u64::MAX ==> parsed_u64(seq!['+'] + s)
            == Some(digits_value(s) as u64),
        parsed_u64(seq!['+']) is None,
        all_digits(s) && digits_value(s) > u64::MAX ==> parsed_u64(s) is None,
        0 < i < s.len() && !is_digit(s[i]) ==> parsed_u64(s) is None,
        s.len() > 0 && !is_digit(s[0]) && s[0] != '+' ==> parsed_u64(s) is None,
{
    assert((seq!['+'] + s).skip(1) =~= s);
    if s.len() > 0 && all_digits(s) {
        assert(is_digit(s[0]));
    }
    if 0 < i < s.len() && !is_digit(s[i]) {
        assert(s.skip(1)[i - 1] == s[i]);
    }
}

/// Of two texts the one with the smaller byte at the first place where they differ comes first, and a
/// text comes before every longer one that starts with it.
pub proof fn first_difference_decides(front: Seq<u8>, a: Seq<u8>, b: Seq<u8>, x: u8, y: u8)
    ensures
        x < y ==> bytes_less(front + seq![x] + a, front + seq![y] + b),
        bytes_less(front, front + seq![x] + a),
        !bytes_less(front + a, front),
    decreases front.len(),
{
    let lower = front + seq![x] + a;
    let higher = front + seq![y] + b;
    if front.len() > 0 {
        let rest = front.skip(1);
        first_difference_decides(rest, a, b, x, y);
        assert(lower.skip(1) =~= rest + seq![x] + a);
        assert(higher.skip(1) =~= rest + seq![y] + b);
        assert((front + a).skip(1) =~= rest + a);
    } else {
        assert(lower[0] == x);
        assert(higher[0] == y);
    }
}

} // verus!
