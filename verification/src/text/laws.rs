//! What the texts say: numbers, figures and bytes can be read back off them.

use vstd::prelude::*;

use crate::text;

verus! {

/// The number that a run of decimal digits spells, whatever zeros stand in front.
pub open spec fn numeral(s: Seq<char>) -> int
    decreases s.len(),
{
    if s.len() == 0 {
        0
    } else {
        10 * numeral(s.drop_last()) + (s.last() as int - '0' as int)
    }
}

/// Every character is a decimal digit.
pub open spec fn all_digits(s: Seq<char>) -> bool {
    forall|i: int| 0 <= i < s.len() ==> '0' as int <= #[trigger] s[i] as int <= '9' as int
}

/// A number in decimal reads back: it is all digits, they spell the number, and none of
/// them is an idle zero in front.
pub proof fn a_decimal_reads_back(n: nat)
    ensures
        text::decimal(n).len() > 0,
        all_digits(text::decimal(n)),
        numeral(text::decimal(n)) == n,
        n > 0 ==> text::decimal(n)[0] != '0',
        n < 10 <==> text::decimal(n).len() == 1,
        n < 100 ==> text::decimal(n).len() <= 2,
    decreases n,
{
    let s = text::decimal(n);
    if n < 10 {
        assert(s.drop_last() =~= Seq::empty());
        assert(numeral(s.drop_last()) == 0);
        assert(s.last() as int == 48 + n);
    } else {
        a_decimal_reads_back(n / 10);
        assert(s.drop_last() =~= text::decimal(n / 10));
        assert(s.last() as int == 48 + n % 10);
        assert forall|i: int| 0 <= i < s.len() implies '0' as int <= #[trigger] s[i] as int
            <= '9' as int by {
            if i < s.len() - 1 {
                assert(s[i] == text::decimal(n / 10)[i]);
            }
        }
        assert(s[0] == text::decimal(n / 10)[0]);
    }
}

proof fn lemma_idle_zeros(n: nat, s: Seq<char>)
    requires
        all_digits(s),
    ensures
        numeral(text::repeated('0', n) + s) == numeral(s),
        all_digits(text::repeated('0', n) + s),
    decreases s.len(), n,
{
    let all = text::repeated('0', n) + s;
    assert forall|i: int| 0 <= i < all.len() implies '0' as int <= #[trigger] all[i] as int
        <= '9' as int by {
        if i >= n {
            assert(all[i] == s[i - n]);
        }
    }
    if s.len() > 0 {
        let front = s.drop_last();
        assert forall|i: int| 0 <= i < front.len() implies '0' as int <= #[trigger] front[i] as int
            <= '9' as int by {
            assert(front[i] == s[i]);
        }
        lemma_idle_zeros(n, front);
        assert(all.drop_last() =~= text::repeated('0', n) + front);
    } else if n > 0 {
        lemma_idle_zeros((n - 1) as nat, s);
        assert(all.drop_last() =~= text::repeated('0', (n - 1) as nat) + s);
    }
}

/// Zeros in front change nothing: a padded number is all digits, spells the same number and
/// is as wide as it was asked for, or as wide as the number where that is wider.
pub proof fn a_padded_number_reads_back(n: nat, width: nat)
    ensures
        all_digits(text::zero_padded(n, width)),
        numeral(text::zero_padded(n, width)) == n,
        text::zero_padded(n, width).len() >= width,
        text::decimal(n).len() <= width ==> text::zero_padded(n, width).len() == width,
        text::decimal(n).len() >= width ==> text::zero_padded(n, width) == text::decimal(n),
        width > 0 && n < vstd::arithmetic::power::pow(10, width) ==> text::zero_padded(
            n,
            width,
        ).len() == width,
{
    lemma_ten_to(width);
    if width > 0 && n < text::ten_to(width) {
        lemma_short_decimal(n, width);
    }
    a_decimal_reads_back(n);
    let d = text::decimal(n);
    if d.len() < width {
        lemma_idle_zeros((width - d.len()) as nat, d);
    }
}

proof fn lemma_short_decimal(n: nat, places: nat)
    requires
        n < text::ten_to(places),
        places > 0,
    ensures
        text::decimal(n).len() <= places,
    decreases places,
{
    if n >= 10 {
        if places == 1 {
            assert(text::ten_to(1) == 10 * text::ten_to(0));
        } else {
            lemma_short_decimal(n / 10, (places - 1) as nat);
        }
    }
}

proof fn lemma_numeral_joins(a: Seq<char>, b: Seq<char>)
    ensures
        numeral(a + b) == numeral(a) * text::ten_to(b.len()) + numeral(b),
    decreases b.len(),
{
    if b.len() == 0 {
        assert(a + b =~= a);
        assert(numeral(a) * text::ten_to(0) == numeral(a)) by (nonlinear_arith)
            requires
                text::ten_to(0) == 1,
        ;
    } else {
        let front = b.drop_last();
        lemma_numeral_joins(a, front);
        assert((a + b).drop_last() =~= a + front);
        let x = numeral(a);
        let t = text::ten_to(front.len());
        assert(x * (10 * t) == 10 * (x * t)) by (nonlinear_arith);
    }
}

proof fn lemma_ten_to(places: nat)
    ensures
        text::ten_to(places) == vstd::arithmetic::power::pow(10, places),
        text::ten_to(places) > 0,
    decreases places,
{
    reveal(vstd::arithmetic::power::pow);
    if places > 0 {
        lemma_ten_to((places - 1) as nat);
    }
}

/// The nearest integer to a fraction is at most half off, and of two that are as near it is
/// the even one.
pub proof fn the_nearest_is_at_most_half_off(num: nat, den: nat)
    requires
        den > 0,
    ensures
        2 * (text::nearest_even(num, den) * den) <= 2 * num + den,
        2 * num <= 2 * (text::nearest_even(num, den) * den) + den,
        2 * (text::nearest_even(num, den) * den) == 2 * num + den || 2 * num == 2 * (text::nearest_even(
            num,
            den,
        ) * den) + den ==> text::nearest_even(num, den) % 2 == 0,
{
    let down = num / den;
    vstd::arithmetic::div_mod::lemma_fundamental_div_mod(num as int, den as int);
    assert(down * den == den * down && (down + 1) * den == den * down + den) by (nonlinear_arith);
}

/// The digits of a decimal fraction, without its sign and its point.
pub open spec fn figure(s: Seq<char>, signs: int, places: int) -> Seq<char> {
    let body = s.skip(signs);
    if places == 0 {
        body
    } else {
        body.take(body.len() - places - 1) + body.skip(body.len() - places)
    }
}

proof fn lemma_point(count: nat, places: nat)
    ensures
        ({
            let s = text::point_shifted(count, places);
            let digits = figure(s, 0, places as int);
            &&& places > 0 ==> s.len() >= places + 2 && s[s.len() - places - 1] == '.'
            &&& s.len() > 0
            &&& all_digits(digits)
            &&& numeral(digits) == count
        }),
{
    lemma_ten_to(places);
    let s = text::point_shifted(count, places);
    let t = text::ten_to(places);
    assert(s.skip(0) =~= s);
    if places == 0 {
        a_decimal_reads_back(count);
    } else {
        let whole = count / t;
        let part = count % t;
        a_decimal_reads_back(whole);
        vstd::arithmetic::div_mod::lemma_fundamental_div_mod(count as int, t as int);
        lemma_short_decimal(part, places);
        a_padded_number_reads_back(part, places);
        let w = text::decimal(whole);
        let p = text::zero_padded(part, places);
        assert(s =~= w + seq!['.'] + p);
        assert(s.take(s.len() - places - 1) =~= w);
        assert(s.skip(s.len() - places) =~= p);
        lemma_numeral_joins(w, p);
        assert(whole * t == t * whole) by (nonlinear_arith);
        let digits = w + p;
        assert forall|i: int| 0 <= i < digits.len() implies '0' as int <= #[trigger] digits[i] as int
            <= '9' as int by {
            if i < w.len() {
                assert(digits[i] == w[i]);
            } else {
                assert(digits[i] == p[i - w.len()]);
            }
        }
    }
}

/// A figure with so many digits behind the point is the one nearest to the fraction, to half
/// of its last digit. It opens with a minus sign if and only if the fraction is negative, the
/// point stands where it belongs, and the rest is digits.
pub proof fn a_figure_is_the_nearest(value: int, unit: nat, places: nat)
    requires
        unit > 0,
    ensures
        ({
            let s = text::fixed(value, unit, places);
            let signs: int = if value < 0 {
                1
            } else {
                0
            };
            let size = if value < 0 {
                -value
            } else {
                value
            };
            let digits = figure(s, signs, places as int);
            let exact = size * vstd::arithmetic::power::pow(10, places);
            &&& s.len() > signs
            &&& value < 0 <==> s[0] == '-'
            &&& places > 0 ==> s.len() >= signs + places + 2 && s[s.len() - places - 1] == '.'
            &&& all_digits(digits)
            &&& 2 * (numeral(digits) * unit) <= 2 * exact + unit
            &&& 2 * exact <= 2 * (numeral(digits) * unit) + unit
        }),
{
    lemma_ten_to(places);
    let size = if value < 0 {
        -value
    } else {
        value
    };
    let t = text::ten_to(places);
    assert(size * t >= 0) by (nonlinear_arith)
        requires
            size >= 0,
            t > 0,
    ;
    let count = text::nearest_even((size * t) as nat, unit);
    the_nearest_is_at_most_half_off((size * t) as nat, unit);
    lemma_point(count, places);
    let body = text::point_shifted(count, places);
    let s = text::fixed(value, unit, places);
    assert(body.skip(0) =~= body);
    if value < 0 {
        assert(s.skip(1) =~= body);
    } else {
        assert(s =~= body);
        assert(s.skip(0) =~= body);
        let digits = figure(body, 0, places as int);
        if places > 0 {
            assert(digits[0] == body[0]);
        } else {
            assert(digits[0] == body[0]);
        }
    }
}

/// A figure with its sign opens with a plus where the fraction is not negative and with a
/// minus where it is, and is the plain figure otherwise: a fraction and its negation have the
/// same digits and the opposite sign.
pub proof fn a_sign_says_which_way(value: int, unit: nat, places: nat)
    requires
        unit > 0,
    ensures
        text::fixed_with_sign(value, unit, places).len() > 1,
        value >= 0 <==> text::fixed_with_sign(value, unit, places)[0] == '+',
        value < 0 <==> text::fixed_with_sign(value, unit, places)[0] == '-',
        value >= 0 ==> text::fixed_with_sign(value, unit, places).skip(1) == text::fixed(value, unit, places),
        value < 0 ==> text::fixed_with_sign(value, unit, places) == text::fixed(value, unit, places),
        text::fixed_with_sign(value, unit, places).skip(1) == text::fixed_with_sign(-value, unit, places).skip(
            1,
        ),
{
    a_figure_is_the_nearest(value, unit, places);
    let s = text::fixed_with_sign(value, unit, places);
    let t = text::fixed_with_sign(-value, unit, places);
    if value >= 0 {
        assert(s.skip(1) =~= text::fixed(value, unit, places));
    }
    assert(s.skip(1) =~= t.skip(1));
}

/// The value of a lower-case hexadecimal digit.
pub open spec fn hex_value(c: char) -> int {
    if 'a' as int <= c as int {
        c as int - 'a' as int + 10
    } else {
        c as int - '0' as int
    }
}

/// A hexadecimal digit of the kind that is written here.
pub open spec fn is_hex(c: char) -> bool {
    '0' as int <= c as int <= '9' as int || 'a' as int <= c as int <= 'f' as int
}

/// A byte in hexadecimal is two lower-case digits that spell it.
pub proof fn a_hex_byte_reads_back(b: u8)
    ensures
        text::hex_byte(b).len() == 2,
        is_hex(text::hex_byte(b)[0]),
        is_hex(text::hex_byte(b)[1]),
        16 * hex_value(text::hex_byte(b)[0]) + hex_value(text::hex_byte(b)[1]) == b,
{
}

/// Two characters at a place in a text spell a byte.
pub open spec fn byte_at(s: Seq<char>, at: int, b: u8) -> bool {
    &&& 0 <= at && at + 2 <= s.len()
    &&& is_hex(s[at])
    &&& is_hex(s[at + 1])
    &&& 16 * hex_value(s[at]) + hex_value(s[at + 1]) == b
}

/// Bytes in hexadecimal, a space between one and the next: three characters to a byte but
/// the last, two digits that spell it and a space.
pub proof fn spaced_bytes_read_back(bytes: Seq<u8>)
    ensures
        bytes.len() == 0 ==> text::hex_spaced(bytes).len() == 0,
        bytes.len() > 0 ==> text::hex_spaced(bytes).len() == 3 * bytes.len() - 1,
        forall|i: int|
            0 <= i < bytes.len() ==> byte_at(text::hex_spaced(bytes), 3 * i, #[trigger] bytes[i]),
        forall|i: int|
            2 <= i < text::hex_spaced(bytes).len() && i % 3 == 2 ==> #[trigger] text::hex_spaced(
                bytes,
            )[i] == ' ',
    decreases bytes.len(),
{
    if bytes.len() > 0 {
        let front = bytes.drop_last();
        let s = text::hex_spaced(bytes);
        let before = text::hex_spaced(front);
        spaced_bytes_read_back(front);
        a_hex_byte_reads_back(bytes.last());
        if front.len() > 0 {
            assert(s =~= before + seq![' '] + text::hex_byte(bytes.last()));
        } else {
            assert(s =~= text::hex_byte(bytes.last()));
        }
        let k = front.len() as int;
        assert forall|i: int| 2 <= i < s.len() && i % 3 == 2 implies #[trigger] s[i] == ' ' by {
            if i < before.len() {
                assert(s[i] == before[i]);
            }
        }
        assert forall|i: int| 0 <= i < bytes.len() implies byte_at(s, 3 * i, #[trigger] bytes[i]) by {
            if i < k {
                assert(front[i] == bytes[i]);
                assert(byte_at(before, 3 * i, front[i]));
                assert(s[3 * i] == before[3 * i] && s[3 * i + 1] == before[3 * i + 1]);
            } else {
                assert(s[3 * k] == text::hex_byte(bytes.last())[0]);
                assert(s[3 * k + 1] == text::hex_byte(bytes.last())[1]);
            }
        }
    }
}

/// Bytes in hexadecimal, run together: two digits to a byte.
pub proof fn bytes_run_together_read_back(bytes: Seq<u8>)
    ensures
        text::hex_run(bytes).len() == 2 * bytes.len(),
        forall|i: int|
            0 <= i < bytes.len() ==> byte_at(text::hex_run(bytes), 2 * i, #[trigger] bytes[i]),
    decreases bytes.len(),
{
    if bytes.len() > 0 {
        let front = bytes.drop_last();
        let s = text::hex_run(bytes);
        let before = text::hex_run(front);
        bytes_run_together_read_back(front);
        a_hex_byte_reads_back(bytes.last());
        let k = front.len() as int;
        assert forall|i: int| 0 <= i < bytes.len() implies byte_at(s, 2 * i, #[trigger] bytes[i]) by {
            if i < k {
                assert(front[i] == bytes[i]);
                assert(byte_at(before, 2 * i, front[i]));
                assert(s[2 * i] == before[2 * i] && s[2 * i + 1] == before[2 * i + 1]);
            } else {
                assert(s[2 * k] == text::hex_byte(bytes.last())[0]);
                assert(s[2 * k + 1] == text::hex_byte(bytes.last())[1]);
            }
        }
    }
}

/// A column holds its text, at the right or at the left, with nothing but the filler beside
/// it, and is no narrower than it was asked to be.
pub proof fn a_column_holds_its_text(s: Seq<char>, width: nat, c: char)
    ensures
        ({
            let right = text::pad_start(s, width, c);
            let left = text::pad_end(s, width, c);
            let wide = if s.len() > width {
                s.len()
            } else {
                width
            };
            &&& right.len() == wide && left.len() == wide
            &&& right.skip(wide - s.len()) == s
            &&& left.take(s.len() as int) == s
            &&& forall|i: int| 0 <= i < wide - s.len() ==> #[trigger] right[i] == c
            &&& forall|i: int| s.len() <= i < wide ==> #[trigger] left[i] == c
        }),
{
    let right = text::pad_start(s, width, c);
    let left = text::pad_end(s, width, c);
    assert(right.skip(right.len() - s.len()) =~= s);
    assert(left.take(s.len() as int) =~= s);
}

/// A text of digits that spells a number in two places, or in as many as the number takes.
pub open spec fn two_digits(s: Seq<char>, n: int) -> bool {
    &&& all_digits(s)
    &&& numeral(s) == n
    &&& s.len() >= 2
    &&& n < 100 ==> s.len() == 2
}

/// A number in two places spells it.
pub proof fn two_places_read_back(n: nat)
    ensures
        two_digits(text::zero_padded(n, 2), n as int),
{
    a_padded_number_reads_back(n, 2);
    reveal_with_fuel(vstd::arithmetic::power::pow, 3);
    assert(vstd::arithmetic::power::pow(10, 2) == 100);
}

/// A text has a number in it, spelled in digits, with this right in front of it and that right
/// behind.
pub open spec fn has_number(s: Seq<char>, before: Seq<char>, n: int, after: Seq<char>) -> bool {
    exists|front: Seq<char>, digits: Seq<char>, back: Seq<char>|
        s == #[trigger] (front + before + digits + after + back) && digits.len() > 0 && all_digits(
            digits,
        ) && numeral(digits) == n
}

/// A text has another in it, with this right in front of it and that right behind.
pub open spec fn has_text(s: Seq<char>, before: Seq<char>, held: Seq<char>, after: Seq<char>) -> bool {
    exists|front: Seq<char>, back: Seq<char>|
        s == #[trigger] (front + before + held + after + back)
}

/// Texts run together.
pub open spec fn joined(parts: Seq<Seq<char>>) -> Seq<char>
    decreases parts.len(),
{
    if parts.len() == 0 {
        Seq::empty()
    } else {
        joined(parts.drop_last()) + parts.last()
    }
}

/// One part more goes behind the others.
pub proof fn lemma_joined(parts: Seq<Seq<char>>, part: Seq<char>)
    ensures
        joined(parts.push(part)) == joined(parts) + part,
{
    assert(parts.push(part).drop_last() =~= parts);
}

/// Each of the texts that were run together can be read between its neighbours.
pub proof fn lemma_part(parts: Seq<Seq<char>>, i: int)
    requires
        0 < i < parts.len() - 1,
    ensures
        has_text(joined(parts), parts[i - 1], parts[i], parts[i + 1]),
    decreases parts.len(),
{
    let less = parts.drop_last();
    let before = parts[i - 1];
    let held = parts[i];
    let after = parts[i + 1];
    if i + 1 == parts.len() - 1 {
        let two = less.drop_last();
        assert(less.last() == held && two.last() == before && parts.last() == after);
        let front = joined(two.drop_last());
        assert(joined(two) == front + before);
        assert(joined(less) == joined(two) + held);
        assert(joined(parts) == joined(less) + after);
        assert(joined(parts) =~= front + before + held + after + Seq::<char>::empty());
    } else {
        lemma_part(less, i);
        assert(less[i - 1] == before && less[i] == held && less[i + 1] == after);
        let (front, back) = choose|front: Seq<char>, back: Seq<char>|
            joined(less) == #[trigger] (front + before + held + after + back);
        assert(joined(parts) =~= front + before + held + after + (back + parts.last()));
    }
}

/// A number among the texts that were run together can be read between its neighbours.
pub proof fn lemma_number_part(parts: Seq<Seq<char>>, i: int, n: nat)
    requires
        0 < i < parts.len() - 1,
        parts[i] == text::decimal(n),
    ensures
        has_number(joined(parts), parts[i - 1], n as int, parts[i + 1]),
{
    lemma_part(parts, i);
    a_decimal_reads_back(n);
    let digits = parts[i];
    let (front, back) = choose|front: Seq<char>, back: Seq<char>|
        joined(parts) == #[trigger] (front + parts[i - 1] + digits + parts[i + 1] + back);
    assert(joined(parts) == front + parts[i - 1] + digits + parts[i + 1] + back);
}

/// A text is the figure nearest to `value / unit`, with so many digits behind the point and no
/// sign; `scale` is ten to that many.
pub open spec fn is_figure(s: Seq<char>, value: int, unit: int, places: int, scale: int) -> bool {
    let digits = figure(s, 0, places);
    &&& s.len() > 0
    &&& places > 0 ==> s.len() >= places + 2 && s[s.len() - places - 1] == '.'
    &&& all_digits(digits)
    &&& 2 * (numeral(digits) * unit) <= 2 * (scale * value) + unit
    &&& 2 * (scale * value) <= 2 * (numeral(digits) * unit) + unit
}

/// A figure of up to three places is the nearest one.
pub proof fn lemma_is_figure(value: int, unit: nat, places: nat)
    requires
        value >= 0,
        unit > 0,
        places <= 4,
    ensures
        places == 0 ==> is_figure(text::fixed(value, unit, places), value, unit as int, 0, 1),
        places == 1 ==> is_figure(text::fixed(value, unit, places), value, unit as int, 1, 10),
        places == 2 ==> is_figure(text::fixed(value, unit, places), value, unit as int, 2, 100),
        places == 3 ==> is_figure(text::fixed(value, unit, places), value, unit as int, 3, 1_000),
        places == 4 ==> is_figure(text::fixed(value, unit, places), value, unit as int, 4, 10_000),
{
    a_figure_is_the_nearest(value, unit, places);
    reveal_with_fuel(vstd::arithmetic::power::pow, 5);
    let scale = vstd::arithmetic::power::pow(10, places);
    assert(value * scale == scale * value) by (nonlinear_arith);
}

/// A figure with its sign is a sign and the nearest figure to the size of the number.
pub proof fn lemma_is_signed_figure(value: int, unit: nat, places: nat)
    requires
        unit > 0,
        places <= 4,
    ensures
        ({
            let s = text::fixed_with_sign(value, unit, places);
            let size = if value < 0 {
                -value
            } else {
                value
            };
            &&& s.len() > 1
            &&& s[0] == (if value < 0 {
                '-'
            } else {
                '+'
            })
            &&& places == 0 ==> is_figure(s.skip(1), size, unit as int, 0, 1)
            &&& places == 1 ==> is_figure(s.skip(1), size, unit as int, 1, 10)
            &&& places == 2 ==> is_figure(s.skip(1), size, unit as int, 2, 100)
            &&& places == 3 ==> is_figure(s.skip(1), size, unit as int, 3, 1_000)
            &&& places == 4 ==> is_figure(s.skip(1), size, unit as int, 4, 10_000)
        }),
{
    let size = if value < 0 {
        -value
    } else {
        value
    };
    a_sign_says_which_way(value, unit, places);
    a_sign_says_which_way(size, unit, places);
    lemma_is_figure(size, unit, places);
}

/// Zeros in front of a figure change nothing.
pub proof fn lemma_padded_figure(
    s: Seq<char>,
    n: nat,
    value: int,
    unit: int,
    places: int,
    scale: int,
)
    requires
        is_figure(s, value, unit, places, scale),
        places >= 0,
    ensures
        is_figure(text::repeated('0', n) + s, value, unit, places, scale),
{
    let wide = text::repeated('0', n) + s;
    lemma_idle_zeros(n, figure(s, 0, places));
    assert(figure(wide, 0, places) =~= text::repeated('0', n) + figure(s, 0, places));
}

/// The order of texts is that of a dictionary: what they begin with alike does not matter, a
/// text comes before any longer one that it begins, and else the first character in which
/// they differ decides.
pub proof fn texts_are_in_dictionary_order(
    alike: Seq<char>,
    a: Seq<char>,
    b: Seq<char>,
)
    ensures
        a.len() == 0 ==> text::at_most(alike + a, alike + b),
        b.len() == 0 && a.len() > 0 ==> !text::at_most(alike + a, alike + b),
        a.len() > 0 && b.len() > 0 && a[0] != b[0] ==> (text::at_most(alike + a, alike + b)
            <==> (a[0] as int) < (b[0] as int)),
    decreases alike.len(),
{
    if alike.len() == 0 {
        assert(alike + a =~= a);
        assert(alike + b =~= b);
    } else {
        texts_are_in_dictionary_order(alike.drop_first(), a, b);
        assert((alike + a).drop_first() =~= alike.drop_first() + a);
        assert((alike + b).drop_first() =~= alike.drop_first() + b);
    }
}

/// A number with a sign is its size, with a minus in front if and only if it is negative.
pub proof fn a_signed_number_reads_back(n: int)
    ensures
        ({
            let s = text::signed_decimal(n);
            &&& s.len() > 0
            &&& n < 0 ==> s[0] == '-' && all_digits(s.skip(1)) && numeral(s.skip(1)) == -n
            &&& n >= 0 ==> all_digits(s) && numeral(s) == n
        }),
{
    if n < 0 {
        a_decimal_reads_back((-n) as nat);
        assert(text::signed_decimal(n).skip(1) =~= text::decimal((-n) as nat));
    } else {
        a_decimal_reads_back(n as nat);
    }
}

/// A text is the figure nearest to a number that may be negative, with a minus in front if and
/// only if it is.
pub open spec fn is_plain_figure(
    s: Seq<char>,
    value: int,
    unit: int,
    places: int,
    scale: int,
) -> bool {
    if value < 0 {
        s.len() > 1 && s[0] == '-' && is_figure(s.skip(1), -value, unit, places, scale)
    } else {
        is_figure(s, value, unit, places, scale)
    }
}

/// A figure of no place or three is the nearest one, on either side of zero.
pub proof fn lemma_is_plain_figure(value: int, unit: nat, places: nat)
    requires
        unit > 0,
        places <= 4,
    ensures
        places == 0 ==> is_plain_figure(text::fixed(value, unit, places), value, unit as int, 0, 1),
        places == 1 ==> is_plain_figure(
            text::fixed(value, unit, places),
            value,
            unit as int,
            1,
            10,
        ),
        places == 3 ==> is_plain_figure(
            text::fixed(value, unit, places),
            value,
            unit as int,
            3,
            1_000,
        ),
{
    if value < 0 {
        lemma_is_signed_figure(value, unit, places);
        a_sign_says_which_way(value, unit, places);
    } else {
        lemma_is_figure(value, unit, places);
    }
}

} // verus!
