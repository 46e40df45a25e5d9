//! Text, built character by character: decimal and hexadecimal numbers, padded
//! columns, decimal fractions.
//!
//! Every function that writes has a specification over `Seq<char>` beside it, so
//! that a sentence put together out of several of them has an exact contract.

pub mod laws;

use vstd::prelude::*;

verus! {

/// `String::push`: appends one character and changes nothing else.
pub assume_specification[ std::string::String::push ](string: &mut std::string::String, c: char)
    ensures
        final(string)@ == old(string)@.push(c),
;

/// `String::push_str`: appends a string slice and changes nothing else.
pub assume_specification[ std::string::String::push_str ](
    string: &mut std::string::String,
    more: &str,
)
    ensures
        final(string)@ == old(string)@ + more@,
;

/// What `str::to_lowercase` makes of a text.
pub uninterp spec fn lowercase(whole: Seq<char>) -> Seq<char>;

/// `str::to_lowercase`. Which characters it changes, and into how many, is Unicode's
/// business; all that is claimed is that the result depends on the text alone.
#[verifier::external_body]
pub(crate) fn lower(whole: &str) -> (out: String)
    ensures
        out@ == lowercase(whole@),
{
    whole.to_lowercase()
}

/// What a text looks like in quotes, as `Debug` writes it.
pub uninterp spec fn quoted(whole: Seq<char>) -> Seq<char>;

/// The `Debug` form of `str`: the text in double quotes, with what would not print
/// escaped. Which characters those are is Unicode's business; all that is claimed is that
/// the result depends on the text alone.
#[verifier::external_body]
pub(crate) fn quote(whole: &str) -> (out: String)
    ensures
        out@ == quoted(whole@),
{
    format!("{:?}", whole)
}

/// What `String::from_utf8_lossy` makes of bytes.
pub uninterp spec fn lossy_text(bytes: Seq<u8>) -> Seq<char>;

/// `String::from_utf8_lossy`: bytes as text, with what is not UTF-8 replaced. Which bytes
/// those are is left unsaid; all that is claimed is that the result depends on the bytes
/// alone.
#[verifier::external_body]
pub(crate) fn lossy(bytes: &[u8]) -> (out: String)
    ensures
        out@ == lossy_text(bytes@),
{
    String::from_utf8_lossy(bytes).into_owned()
}

/// The character for a decimal digit.
pub open spec fn digit(d: nat) -> char {
    (48 + d) as char
}

/// The lower-case character for a hexadecimal digit.
pub open spec fn hex_digit(d: nat) -> char {
    if d < 10 {
        (48 + d) as char
    } else {
        (87 + d) as char
    }
}

/// A natural number in decimal, with no leading zeros.
pub open spec fn decimal(n: nat) -> Seq<char>
    decreases n,
{
    if n < 10 {
        seq![digit(n)]
    } else {
        decimal(n / 10).push(digit(n % 10))
    }
}

/// An integer in decimal, with a minus sign where it is negative.
pub open spec fn signed_decimal(n: int) -> Seq<char> {
    if n < 0 {
        seq!['-'] + decimal((-n) as nat)
    } else {
        decimal(n as nat)
    }
}

/// `n` copies of one character.
pub open spec fn repeated(c: char, n: nat) -> Seq<char> {
    Seq::new(n, |i: int| c)
}

/// Text pushed to the right of a column `width` wide, and left alone where it is
/// wider than that.
pub open spec fn pad_start(s: Seq<char>, width: nat, c: char) -> Seq<char> {
    if s.len() >= width {
        s
    } else {
        repeated(c, (width - s.len()) as nat) + s
    }
}

/// Text at the left of a column `width` wide, and left alone where it is wider
/// than that.
pub open spec fn pad_end(s: Seq<char>, width: nat, c: char) -> Seq<char> {
    if s.len() >= width {
        s
    } else {
        s + repeated(c, (width - s.len()) as nat)
    }
}

/// A number in decimal, with leading zeros up to `width` digits.
pub open spec fn zero_padded(n: nat, width: nat) -> Seq<char> {
    pad_start(decimal(n), width, '0')
}

/// A byte as two hexadecimal digits.
pub open spec fn hex_byte(b: u8) -> Seq<char> {
    seq![hex_digit((b / 16) as nat), hex_digit((b % 16) as nat)]
}

/// Bytes as hexadecimal digits, run together.
pub open spec fn hex_run(bytes: Seq<u8>) -> Seq<char>
    decreases bytes.len(),
{
    if bytes.len() == 0 {
        Seq::empty()
    } else {
        hex_run(bytes.drop_last()) + hex_byte(bytes.last())
    }
}

/// Bytes as hexadecimal digits, a space between one byte and the next.
pub open spec fn hex_spaced(bytes: Seq<u8>) -> Seq<char>
    decreases bytes.len(),
{
    if bytes.len() == 0 {
        Seq::empty()
    } else if bytes.len() == 1 {
        hex_byte(bytes.last())
    } else {
        hex_spaced(bytes.drop_last()) + seq![' '] + hex_byte(bytes.last())
    }
}

/// Ten to the power `places`.
pub open spec fn ten_to(places: nat) -> nat
    decreases places,
{
    if places == 0 {
        1
    } else {
        10 * ten_to((places - 1) as nat)
    }
}

/// The integer nearest to `num / den`, the even one of two that are equally near.
pub open spec fn nearest_even(num: nat, den: nat) -> nat {
    let down = num / den;
    let left = num % den;
    if 2 * left < den || (2 * left == den && down % 2 == 0) {
        down
    } else {
        down + 1
    }
}

/// A count of `10^-places` written as a decimal fraction.
pub open spec fn point_shifted(count: nat, places: nat) -> Seq<char> {
    if places == 0 {
        decimal(count)
    } else {
        decimal(count / ten_to(places)) + seq!['.'] + zero_padded(
            count % ten_to(places),
            places,
        )
    }
}

/// `value / unit` rounded to `places` digits behind the point. The sign is that of
/// `value`, also where the digits come out as zero.
pub open spec fn fixed(value: int, unit: nat, places: nat) -> Seq<char> {
    if value < 0 {
        seq!['-'] + point_shifted(nearest_even(((-value) as nat) * ten_to(places), unit), places)
    } else {
        point_shifted(nearest_even((value as nat) * ten_to(places), unit), places)
    }
}

/// The same with a plus sign where `value` is not negative.
pub open spec fn fixed_with_sign(value: int, unit: nat, places: nat) -> Seq<char> {
    if value < 0 {
        fixed(value, unit, places)
    } else {
        seq!['+'] + fixed(value, unit, places)
    }
}

/// Whether `part` stands somewhere in `whole`.
pub open spec fn holds_text(whole: Seq<char>, part: Seq<char>) -> bool {
    exists|at: int|
        0 <= at && at + part.len() <= whole.len() && #[trigger] whole.subrange(
            at,
            at + part.len(),
        ) == part
}

/// Appends a decimal number.
pub fn put_decimal(out: &mut String, n: u128)
    ensures
        final(out)@ == old(out)@ + decimal(n as nat),
    decreases n,
{
    if n >= 10 {
        put_decimal(out, n / 10);
    }
    let d: u8 = (n % 10) as u8;
    out.push((48u8 + d) as char);
    proof {
        let before = old(out)@;
        if n >= 10 {
            assert((before + decimal((n / 10) as nat)).push(digit((n % 10) as nat)) =~= before
                + decimal((n / 10) as nat).push(digit((n % 10) as nat)));
        } else {
            assert(before.push(digit(n as nat)) =~= before + seq![digit(n as nat)]);
        }
    }
}

/// A decimal number.
pub fn decimal_text(n: u128) -> (text: String)
    ensures
        text@ == decimal(n as nat),
{
    let mut out = String::new();
    put_decimal(&mut out, n);
    assert(out@ =~= decimal(n as nat));
    out
}

/// Appends a decimal number with its sign where it is negative.
pub fn put_signed(out: &mut String, n: i64)
    ensures
        final(out)@ == old(out)@ + signed_decimal(n as int),
{
    if n < 0 {
        out.push('-');
        put_decimal(out, (-(n as i128)) as u128);
        proof {
            let before = old(out)@;
            assert(before.push('-') + decimal((-n) as nat) =~= before + (seq!['-'] + decimal(
                (-n) as nat,
            )));
        }
    } else {
        put_decimal(out, n as u128);
    }
}

/// Appends `n` copies of a character.
pub fn put_repeated(out: &mut String, c: char, n: usize)
    ensures
        final(out)@ == old(out)@ + repeated(c, n as nat),
{
    let mut i: usize = 0;
    assert(out@ =~= out@ + repeated(c, 0));
    while i < n
        invariant
            i <= n,
            out@ == old(out)@ + repeated(c, i as nat),
        decreases n - i,
    {
        out.push(c);
        i = i + 1;
        assert(out@ =~= old(out)@ + repeated(c, i as nat));
    }
}

/// Appends text pushed to the right of a column.
pub fn put_pad_start(out: &mut String, piece: &str, width: usize, c: char)
    ensures
        final(out)@ == old(out)@ + pad_start(piece@, width as nat, c),
{
    let len: usize = piece.unicode_len();
    if len < width {
        put_repeated(out, c, width - len);
    }
    out.push_str(piece);
    assert(out@ =~= old(out)@ + pad_start(piece@, width as nat, c));
}

/// Appends text at the left of a column.
pub fn put_pad_end(out: &mut String, piece: &str, width: usize, c: char)
    ensures
        final(out)@ == old(out)@ + pad_end(piece@, width as nat, c),
{
    let len: usize = piece.unicode_len();
    out.push_str(piece);
    if len < width {
        put_repeated(out, c, width - len);
    }
    assert(out@ =~= old(out)@ + pad_end(piece@, width as nat, c));
}

/// Appends a number with leading zeros.
pub fn put_zero_padded(out: &mut String, n: u128, width: usize)
    ensures
        final(out)@ == old(out)@ + zero_padded(n as nat, width as nat),
{
    let piece = decimal_text(n);
    put_pad_start(out, piece.as_str(), width, '0');
}

/// Appends a byte as two hexadecimal digits.
pub fn put_hex_byte(out: &mut String, b: u8)
    ensures
        final(out)@ == old(out)@ + hex_byte(b),
{
    out.push(hex_digit_char(b / 16));
    out.push(hex_digit_char(b % 16));
    assert(out@ =~= old(out)@ + hex_byte(b));
}

/// The character for a hexadecimal digit.
pub fn hex_digit_char(d: u8) -> (c: char)
    requires
        d < 16,
    ensures
        c == hex_digit(d as nat),
{
    if d < 10 {
        (48 + d) as char
    } else {
        (87 + d) as char
    }
}

/// Bytes as hexadecimal digits, run together.
pub fn hex_run_text(bytes: &[u8]) -> (text: String)
    ensures
        text@ == hex_run(bytes@),
{
    let mut out = String::new();
    let mut i: usize = 0;
    assert(bytes@.take(0).len() == 0);
    while i < bytes.len()
        invariant
            i <= bytes.len(),
            out@ == hex_run(bytes@.take(i as int)),
        decreases bytes.len() - i,
    {
        put_hex_byte(&mut out, bytes[i]);
        i = i + 1;
        assert(bytes@.take(i as int).drop_last() =~= bytes@.take(i - 1));
    }
    assert(bytes@.take(i as int) =~= bytes@);
    out
}

/// Bytes as hexadecimal digits, a space between one byte and the next.
pub fn hex(bytes: &[u8]) -> (text: String)
    ensures
        text@ == hex_spaced(bytes@),
{
    let mut out = String::new();
    let mut i: usize = 0;
    assert(bytes@.take(0).len() == 0);
    while i < bytes.len()
        invariant
            i <= bytes.len(),
            out@ == hex_spaced(bytes@.take(i as int)),
        decreases bytes.len() - i,
    {
        let ghost before = out@;
        if i > 0 {
            out.push(' ');
        }
        put_hex_byte(&mut out, bytes[i]);
        i = i + 1;
        proof {
            assert(bytes@.take(i as int).drop_last() =~= bytes@.take(i - 1));
            if i == 1 {
                assert(before =~= Seq::<char>::empty());
                assert(out@ =~= hex_byte(bytes@[0]));
            } else {
                assert(out@ =~= before + seq![' '] + hex_byte(bytes@[i - 1]));
            }
        }
    }
    assert(bytes@.take(i as int) =~= bytes@);
    out
}

/// Ten to the power `places`, which is at most 9.
pub fn power_of_ten(places: u8) -> (power: u128)
    requires
        places <= 9,
    ensures
        power == ten_to(places as nat),
        1 <= power <= 1_000_000_000,
{
    proof {
        reveal_with_fuel(ten_to, 11);
    }
    let mut power: u128 = 1;
    let mut i: u8 = 0;
    while i < places
        invariant
            i <= places <= 9,
            power == ten_to(i as nat),
            1 <= power <= 1_000_000_000,
            i < 9 ==> power <= 100_000_000,
            i < 8 ==> power <= 10_000_000,
        decreases places - i,
    {
        proof {
            reveal_with_fuel(ten_to, 11);
        }
        power = 10 * power;
        i = i + 1;
    }
    power
}

/// The integer nearest to `num / den`, the even one of two that are equally near.
pub fn round_half_even(num: u128, den: u128) -> (q: u128)
    requires
        0 < den <= 0x4000_0000_0000_0000_0000_0000_0000_0000,
    ensures
        q == nearest_even(num as nat, den as nat),
{
    let down: u128 = num / den;
    let left: u128 = num % den;
    if 2 * left < den || (2 * left == den && down % 2 == 0) {
        down
    } else {
        proof {
            assert(down * den + left == num) by (nonlinear_arith)
                requires
                    down == num / den,
                    left == num % den,
                    den > 0,
            ;
            assert(down < u128::MAX) by (nonlinear_arith)
                requires
                    down * den + left == num,
                    left >= 1,
                    den >= 1,
                    num <= u128::MAX,
            ;
        }
        down + 1
    }
}

/// The largest unit that so many digits behind the point can be worked out in.
pub open spec fn widest_unit(places: u8) -> nat {
    if places == 0 {
        0x4000_0000_0000_0000_0000_0000_0000_0000
    } else {
        0x1_0000_0000_0000_0000_0000_0000
    }
}

/// Rounding may be done on what is left after the whole part, behind an even number of
/// parts.
proof fn lemma_rounding_leaves_the_whole(value: nat, unit: nat, power: nat)
    requires
        unit > 0,
        power > 0,
        power % 2 == 0,
    ensures
        nearest_even(value * power, unit) == (value / unit) * power + nearest_even(
            (value % unit) * power,
            unit,
        ),
        nearest_even((value % unit) * power, unit) <= power,
{
    let whole = value / unit;
    let left = value % unit;
    vstd::arithmetic::div_mod::lemma_fundamental_div_mod(value as int, unit as int);
    assert(value * power == unit * (whole * power) + left * power) by (nonlinear_arith)
        requires
            value == unit * whole + left,
    ;
    let part = left * power;
    vstd::arithmetic::div_mod::lemma_fundamental_div_mod(part as int, unit as int);
    assert(value * power == unit * (whole * power + part / unit) + part % unit) by (nonlinear_arith)
        requires
            value * power == unit * (whole * power) + part,
            part == unit * (part / unit) + part % unit,
    ;
    vstd::arithmetic::div_mod::lemma_fundamental_div_mod_converse(
        (value * power) as int,
        unit as int,
        (whole * power + part / unit) as int,
        (part % unit) as int,
    );
    assert(whole * power == 2 * (whole * (power / 2))) by (nonlinear_arith)
        requires
            power == 2 * (power / 2),
    ;
    assert(part < unit * power) by (nonlinear_arith)
        requires
            part == left * power,
            left < unit,
            power > 0,
    ;
    assert(part / unit < power) by (nonlinear_arith)
        requires
            part < unit * power,
            part == unit * (part / unit) + part % unit,
            part % unit >= 0,
            unit > 0,
    ;
}

/// Appends `value / unit` rounded to `places` digits behind the point.
pub fn put_fixed(out: &mut String, value: i128, unit: u128, places: u8)
    requires
        places <= 9,
        0 < unit <= widest_unit(places),
    ensures
        final(out)@ == old(out)@ + fixed(value as int, unit as nat, places as nat),
{
    let power: u128 = power_of_ten(places);
    let magnitude: u128 = if value < 0 {
        (-(value + 1)) as u128 + 1
    } else {
        value as u128
    };
    if value < 0 {
        out.push('-');
    }
    if places == 0 {
        let ghost one = ten_to(0);
        assert(one == 1);
        assert(magnitude * one == magnitude) by (nonlinear_arith)
            requires
                one == 1,
        ;
        put_decimal(out, round_half_even(magnitude, unit));
    } else {
        let whole: u128 = magnitude / unit;
        let left: u128 = magnitude % unit;
        assert(whole <= magnitude) by (nonlinear_arith)
            requires
                whole == magnitude / unit,
                unit >= 1,
        ;
        assert(left * power <= 0x1_0000_0000_0000_0000_0000_0000 * 1_000_000_000)
            by (nonlinear_arith)
            requires
                left <= 0x1_0000_0000_0000_0000_0000_0000,
                power <= 1_000_000_000,
        ;
        let part: u128 = round_half_even(left * power, unit);
        let ghost count = nearest_even((magnitude * power) as nat, unit as nat);
        proof {
            reveal_with_fuel(ten_to, 2);
            lemma_rounding_leaves_the_whole(magnitude as nat, unit as nat, power as nat);
        }
        assert(count == whole * power + part && part <= power);
        let carried: bool = part == power;
        let units: u128 = if carried {
            whole + 1
        } else {
            whole
        };
        let digits: u128 = if carried {
            0
        } else {
            part
        };
        proof {
            assert(count == units * power + digits) by (nonlinear_arith)
                requires
                    count == whole * power + part,
                    units * power + digits == (whole + 1) * power || (units == whole && digits
                        == part),
                    part == power || (units == whole && digits == part),
            ;
            vstd::arithmetic::div_mod::lemma_fundamental_div_mod_converse(
                count as int,
                power as int,
                units as int,
                digits as int,
            );
        }
        put_decimal(out, units);
        out.push('.');
        put_zero_padded(out, digits, places as usize);
        assert(point_shifted(count, places as nat) == decimal(units as nat) + seq!['.']
            + zero_padded(digits as nat, places as nat));
    }
    assert(out@ =~= old(out)@ + fixed(value as int, unit as nat, places as nat));
}

/// `value / unit` rounded to `places` digits behind the point, pushed to the right of a
/// column.
pub open spec fn fixed_column(value: int, unit: nat, places: nat, width: nat) -> Seq<char> {
    pad_start(fixed(value, unit, places), width, ' ')
}

/// Appends the same.
pub fn put_fixed_column(out: &mut String, value: i128, unit: u128, places: u8, width: usize)
    requires
        places <= 9,
        0 < unit <= widest_unit(places),
    ensures
        final(out)@ == old(out)@ + fixed_column(
            value as int,
            unit as nat,
            places as nat,
            width as nat,
        ),
{
    let mut piece = String::new();
    put_fixed(&mut piece, value, unit, places);
    assert(piece@ =~= fixed(value as int, unit as nat, places as nat));
    put_pad_start(out, piece.as_str(), width, ' ');
}

/// `true` or `false`.
pub open spec fn bool_text(b: bool) -> Seq<char> {
    if b {
        "true"@
    } else {
        "false"@
    }
}

/// Appends `true` or `false`.
pub fn put_bool(out: &mut String, b: bool)
    ensures
        final(out)@ == old(out)@ + bool_text(b),
{
    if b {
        out.push_str("true");
    } else {
        out.push_str("false");
    }
}

/// A number in decimal, pushed to the right of a column.
pub open spec fn decimal_column(n: nat, width: nat) -> Seq<char> {
    pad_start(decimal(n), width, ' ')
}

/// Appends the same.
pub fn put_decimal_column(out: &mut String, n: u128, width: usize)
    ensures
        final(out)@ == old(out)@ + decimal_column(n as nat, width as nat),
{
    let piece = decimal_text(n);
    put_pad_start(out, piece.as_str(), width, ' ');
}

/// Appends the same with a plus sign where `value` is not negative.
pub fn put_fixed_with_sign(out: &mut String, value: i128, unit: u128, places: u8)
    requires
        places <= 9,
        0 < unit <= widest_unit(places),
    ensures
        final(out)@ == old(out)@ + fixed_with_sign(value as int, unit as nat, places as nat),
{
    if value >= 0 {
        out.push('+');
    }
    put_fixed(out, value, unit, places);
    assert(out@ =~= old(out)@ + fixed_with_sign(value as int, unit as nat, places as nat));
}

/// Whether two byte strings are the same.
pub fn same_bytes(a: &[u8], b: &[u8]) -> (same: bool)
    ensures
        same == (a@ == b@),
{
    if a.len() != b.len() {
        return false;
    }
    let mut i: usize = 0;
    while i < a.len()
        invariant
            i <= a.len(),
            a@.len() == b@.len(),
            forall|k: int| 0 <= k < i ==> a@[k] == b@[k],
        decreases a.len() - i,
    {
        if a[i] != b[i] {
            return false;
        }
        i = i + 1;
    }
    assert(a@ =~= b@);
    true
}

/// The characters of a string slice.
pub fn chars_of(text: &str) -> (chars: Vec<char>)
    ensures
        chars@ == text@,
{
    let mut chars: Vec<char> = Vec::new();
    for c in it: text.chars()
        invariant
            chars@ == it.seq().take(it.index() as int),
            it.seq() == text@,
    {
        chars.push(c);
        assert(it.seq().take(it.index() + 1) =~= it.seq().take(it.index() as int).push(c));
    }
    assert(chars@ =~= text@);
    chars
}

/// Whether `part` stands in `whole` at `at`.
fn stands_at(whole: &[char], part: &[char], at: usize) -> (yes: bool)
    requires
        at + part.len() <= whole.len(),
    ensures
        yes == (whole@.subrange(at as int, at + part.len()) == part@),
{
    let mut i: usize = 0;
    while i < part.len()
        invariant
            i <= part.len(),
            at + part.len() <= whole.len(),
            forall|k: int| 0 <= k < i ==> whole@[at + k] == #[trigger] part@[k],
        decreases part.len() - i,
    {
        if whole[at + i] != part[i] {
            assert(whole@.subrange(at as int, at + part.len())[i as int] != part@[i as int]);
            return false;
        }
        i = i + 1;
    }
    assert(whole@.subrange(at as int, at + part.len()) =~= part@);
    true
}

/// Whether `part` stands somewhere in `whole`, as `str::contains` finds it.
pub fn contains(whole: &str, part: &str) -> (yes: bool)
    ensures
        yes == holds_text(whole@, part@),
{
    let whole_chars = chars_of(whole);
    let part_chars = chars_of(part);
    if part_chars.len() > whole_chars.len() {
        return false;
    }
    let last: usize = whole_chars.len() - part_chars.len();
    let mut at: usize = 0;
    while at <= last
        invariant
            at <= last + 1,
            last + part_chars.len() == whole_chars.len(),
            whole_chars@ == whole@,
            part_chars@ == part@,
            forall|k: int|
                0 <= k < at ==> #[trigger] whole@.subrange(k, k + part@.len()) != part@,
        ensures
            forall|k: int|
                0 <= k <= last ==> #[trigger] whole@.subrange(k, k + part@.len()) != part@,
        decreases last + 1 - at,
    {
        if stands_at(whole_chars.as_slice(), part_chars.as_slice(), at) {
            assert(whole@.subrange(at as int, at + part@.len()) == part@);
            return true;
        }
        assert(whole@.subrange(at as int, at + part@.len()) != part@);
        if at == last {
            break;
        }
        at = at + 1;
    }
    false
}

/// Whether one text comes no later than another in the order of their characters, which
/// is also the order of their bytes.
pub open spec fn at_most(a: Seq<char>, b: Seq<char>) -> bool
    decreases a.len(),
{
    if a.len() == 0 {
        true
    } else if b.len() == 0 {
        false
    } else if a[0] != b[0] {
        (a[0] as int) < (b[0] as int)
    } else {
        at_most(a.drop_first(), b.drop_first())
    }
}

/// Of any two texts one comes no later than the other, and both only where they are the
/// same.
pub proof fn the_order_of_texts_is_total(a: Seq<char>, b: Seq<char>)
    ensures
        at_most(a, b) || at_most(b, a),
        at_most(a, b) && at_most(b, a) ==> a == b,
        a == b ==> at_most(a, b),
    decreases a.len(),
{
    if a.len() > 0 && b.len() > 0 && a[0] == b[0] {
        the_order_of_texts_is_total(a.drop_first(), b.drop_first());
        if a.drop_first() == b.drop_first() {
            assert(a =~= seq![a[0]] + a.drop_first());
            assert(b =~= seq![b[0]] + b.drop_first());
        }
    } else if a.len() == 0 && b.len() == 0 {
        assert(a =~= b);
    }
}

/// A text that comes no later than a second, which comes no later than a third, comes no
/// later than the third.
pub proof fn the_order_of_texts_is_transitive(a: Seq<char>, b: Seq<char>, c: Seq<char>)
    requires
        at_most(a, b),
        at_most(b, c),
    ensures
        at_most(a, c),
    decreases a.len(),
{
    if a.len() > 0 && b.len() > 0 && c.len() > 0 && a[0] == b[0] && b[0] == c[0] {
        the_order_of_texts_is_transitive(a.drop_first(), b.drop_first(), c.drop_first());
    }
}

/// Whether one text comes no later than another, as `str` orders them.
pub fn is_at_most(a: &str, b: &str) -> (yes: bool)
    ensures
        yes == at_most(a@, b@),
{
    let x = chars_of(a);
    let y = chars_of(b);
    let mut i: usize = 0;
    assert(x@.skip(0) =~= x@ && y@.skip(0) =~= y@);
    while i < x.len()
        invariant
            i <= x.len(),
            i <= y.len(),
            x@ == a@,
            y@ == b@,
            at_most(a@, b@) == at_most(x@.skip(i as int), y@.skip(i as int)),
        decreases x.len() - i,
    {
        if i >= y.len() {
            return false;
        }
        if x[i] != y[i] {
            let c: char = x[i];
            let d: char = y[i];
            return c < d;
        }
        assert(x@.skip(i as int).drop_first() =~= x@.skip(i + 1));
        assert(y@.skip(i as int).drop_first() =~= y@.skip(i + 1));
        i = i + 1;
    }
    true
}

/// Different numbers are written differently.
pub proof fn decimals_tell_numbers_apart(a: nat, b: nat)
    ensures
        decimal(a) == decimal(b) ==> a == b,
        decimal(a).len() > 0,
    decreases a,
{
    if decimal(a) == decimal(b) {
        assert(decimal(a).last() == decimal(b).last());
        if a >= 10 && b >= 10 {
            assert(decimal(a).drop_last() =~= decimal(a / 10));
            assert(decimal(b).drop_last() =~= decimal(b / 10));
            decimals_tell_numbers_apart(a / 10, b / 10);
        } else if a >= 10 {
            decimals_tell_numbers_apart(a / 10, 0);
        } else if b >= 10 {
            assert(decimal(b).len() == decimal(b / 10).len() + 1);
            lemma_decimal_is_not_empty(b / 10);
        }
    }
    if a >= 10 {
        decimals_tell_numbers_apart(a / 10, 0);
    }
}

proof fn lemma_decimal_is_not_empty(n: nat)
    ensures
        decimal(n).len() > 0,
    decreases n,
{
}

} // verus!
