//! Integers of any size, for figures that no machine word is sure to hold.

use vstd::prelude::*;

use crate::num::floor_div;
use crate::text;

verus! {

/// What a limb at place `i` counts.
pub open spec fn unit(i: nat) -> nat
    decreases i,
{
    if i == 0 {
        1
    } else {
        0x1_0000_0000 * unit((i - 1) as nat)
    }
}

/// The number that some limbs spell, the lowest first.
pub open spec fn value(limbs: Seq<u32>) -> nat
    decreases limbs.len(),
{
    if limbs.len() == 0 {
        0
    } else {
        value(limbs.drop_last()) + limbs.last() as nat * unit((limbs.len() - 1) as nat)
    }
}

proof fn lemma_value_bound(limbs: Seq<u32>)
    ensures
        value(limbs) < unit(limbs.len()),
        unit(limbs.len()) >= 1,
    decreases limbs.len(),
{
    if limbs.len() > 0 {
        lemma_value_bound(limbs.drop_last());
        let u = unit((limbs.len() - 1) as nat);
        let x = limbs.last() as nat;
        assert(x * u + u <= 0x1_0000_0000 * u) by (nonlinear_arith)
            requires
                x < 0x1_0000_0000,
        ;
    }
}

proof fn lemma_value_take(limbs: Seq<u32>, i: int)
    requires
        0 <= i < limbs.len(),
    ensures
        value(limbs.take(i + 1)) == value(limbs.take(i)) + limbs[i] as nat * unit(i as nat),
{
    assert(limbs.take(i + 1).drop_last() =~= limbs.take(i));
}

proof fn lemma_value_push(limbs: Seq<u32>, x: u32)
    ensures
        value(limbs.push(x)) == value(limbs) + x as nat * unit(limbs.len()),
{
    assert(limbs.push(x).drop_last() =~= limbs);
}

/// Zeros at the top count for nothing.
proof fn lemma_value_padded(limbs: Seq<u32>, i: int)
    requires
        0 <= i <= limbs.len(),
        forall|k: int| i <= k < limbs.len() ==> #[trigger] limbs[k] == 0,
    ensures
        value(limbs) == value(limbs.take(i)),
    decreases limbs.len() - i,
{
    if i == limbs.len() {
        assert(limbs.take(i) =~= limbs);
    } else {
        lemma_value_padded(limbs, i + 1);
        lemma_value_take(limbs, i);
        assert(0 * unit(i as nat) == 0) by (nonlinear_arith);
    }
}

/// The lowest limb, and the rest above it.
proof fn lemma_value_head(limbs: Seq<u32>)
    requires
        limbs.len() > 0,
    ensures
        value(limbs) == limbs[0] + 0x1_0000_0000 * value(limbs.skip(1)),
    decreases limbs.len(),
{
    let front = limbs.drop_last();
    let rest = limbs.skip(1);
    if limbs.len() == 1 {
        assert(front =~= Seq::empty());
        assert(rest =~= Seq::empty());
        let x = limbs.last() as nat;
        assert(unit(0) == 1);
        assert(x * unit(0) == x) by (nonlinear_arith)
            requires
                unit(0) == 1,
        ;
        assert(value(rest) == 0 && value(front) == 0);
    } else {
        lemma_value_head(front);
        assert(front.skip(1) =~= rest.drop_last());
        let x = limbs.last() as nat;
        let u = unit((rest.len() - 1) as nat);
        assert(unit((limbs.len() - 1) as nat) == 0x1_0000_0000 * u);
        assert(x * (0x1_0000_0000 * u) == 0x1_0000_0000 * (x * u)) by (nonlinear_arith);
        assert(rest.last() == limbs.last());
        assert(front[0] == limbs[0]);
    }
}

/// A limb, none where there are no more.
fn limb(limbs: &Vec<u32>, i: usize) -> (x: u32)
    ensures
        x == limb_at(limbs@, i as int),
{
    if i < limbs.len() {
        limbs[i]
    } else {
        0
    }
}

spec fn limb_at(limbs: Seq<u32>, i: int) -> u32 {
    if i < limbs.len() {
        limbs[i]
    } else {
        0
    }
}

/// The value of the lowest `i` limbs.
spec fn low(limbs: Seq<u32>, i: int) -> nat {
    if i <= limbs.len() {
        value(limbs.take(i))
    } else {
        value(limbs)
    }
}

proof fn lemma_low(limbs: Seq<u32>, i: int)
    requires
        0 <= i,
    ensures
        low(limbs, i + 1) == low(limbs, i) + limb_at(limbs, i) as nat * unit(i as nat),
        i >= limbs.len() ==> low(limbs, i) == value(limbs),
        low(limbs, 0) == 0,
{
    assert(limbs.take(0) =~= Seq::empty());
    if i < limbs.len() {
        lemma_value_take(limbs, i);
    } else {
        assert(0 * unit(i as nat) == 0) by (nonlinear_arith);
    }
    assert(limbs.take(limbs.len() as int) =~= limbs);
}

/// Takes the zeros off the top.
fn trim(limbs: &mut Vec<u32>)
    ensures
        value(final(limbs)@) == value(old(limbs)@),
{
    let mut n: usize = limbs.len();
    while n > 0 && limbs[n - 1] == 0
        invariant
            n <= limbs@.len(),
            forall|k: int| n <= k < limbs@.len() ==> #[trigger] limbs@[k] == 0,
        decreases n,
    {
        n = n - 1;
    }
    proof {
        lemma_value_padded(limbs@, n as int);
    }
    limbs.truncate(n);
}

fn sum(a: &Vec<u32>, b: &Vec<u32>) -> (out: Vec<u32>)
    ensures
        value(out@) == value(a@) + value(b@),
{
    let n: usize = if a.len() >= b.len() {
        a.len()
    } else {
        b.len()
    };
    let mut out: Vec<u32> = Vec::new();
    let mut carry: u64 = 0;
    let mut i: usize = 0;
    proof {
        lemma_low(a@, 0);
        lemma_low(b@, 0);
    }
    while i < n
        invariant
            i <= n,
            n >= a@.len(),
            n >= b@.len(),
            out@.len() == i,
            carry <= 1,
            value(out@) + carry as nat * unit(i as nat) == low(a@, i as int) + low(b@, i as int),
        decreases n - i,
    {
        let x: u32 = limb(a, i);
        let y: u32 = limb(b, i);
        let t: u64 = x as u64 + y as u64 + carry;
        let digit: u32 = (t % 0x1_0000_0000) as u32;
        let next: u64 = t / 0x1_0000_0000;
        proof {
            lemma_low(a@, i as int);
            lemma_low(b@, i as int);
            lemma_value_push(out@, digit);
            let u = unit(i as nat);
            assert(digit as nat * u + next as nat * (0x1_0000_0000 * u) == x as nat * u
                + y as nat * u + carry as nat * u) by (nonlinear_arith)
                requires
                    digit + next * 0x1_0000_0000 == x + y + carry,
            ;
        }
        out.push(digit);
        carry = next;
        i = i + 1;
    }
    proof {
        lemma_low(a@, n as int);
        lemma_low(b@, n as int);
        lemma_value_push(out@, carry as u32);
    }
    out.push(carry as u32);
    trim(&mut out);
    out
}

/// One less another, and whether the other was the larger.
fn difference(a: &Vec<u32>, b: &Vec<u32>) -> (r: (Vec<u32>, bool))
    ensures
        r.1 <==> value(a@) < value(b@),
        !r.1 ==> value(r.0@) == value(a@) - value(b@),
{
    let n: usize = if a.len() >= b.len() {
        a.len()
    } else {
        b.len()
    };
    let mut out: Vec<u32> = Vec::new();
    let mut borrow: u64 = 0;
    let mut i: usize = 0;
    proof {
        lemma_low(a@, 0);
        lemma_low(b@, 0);
    }
    while i < n
        invariant
            i <= n,
            n >= a@.len(),
            n >= b@.len(),
            out@.len() == i,
            borrow <= 1,
            value(out@) + low(b@, i as int) == low(a@, i as int) + borrow as nat * unit(i as nat),
        decreases n - i,
    {
        let x: u32 = limb(a, i);
        let y: u32 = limb(b, i);
        let t: u64 = 0x1_0000_0000 + x as u64 - y as u64 - borrow;
        let digit: u32 = (t % 0x1_0000_0000) as u32;
        let next: u64 = 1 - t / 0x1_0000_0000;
        proof {
            lemma_low(a@, i as int);
            lemma_low(b@, i as int);
            lemma_value_push(out@, digit);
            let u = unit(i as nat);
            assert(digit as nat * u + y as nat * u + borrow as nat * u == x as nat * u + next as nat
                * (0x1_0000_0000 * u)) by (nonlinear_arith)
                requires
                    digit + y + borrow == x + next * 0x1_0000_0000,
            ;
        }
        out.push(digit);
        borrow = next;
        i = i + 1;
    }
    proof {
        lemma_low(a@, n as int);
        lemma_low(b@, n as int);
        lemma_value_bound(out@);
    }
    trim(&mut out);
    (out, borrow == 1)
}

fn scaled(a: &Vec<u32>, by: u32) -> (out: Vec<u32>)
    ensures
        value(out@) == value(a@) * by,
{
    let mut out: Vec<u32> = Vec::new();
    let mut carry: u64 = 0;
    let mut i: usize = 0;
    proof {
        lemma_low(a@, 0);
        assert(0 * by == 0) by (nonlinear_arith);
    }
    while i < a.len()
        invariant
            i <= a@.len(),
            out@.len() == i,
            carry < 0x1_0000_0000,
            value(out@) + carry as nat * unit(i as nat) == low(a@, i as int) * by,
        decreases a@.len() - i,
    {
        let x: u32 = a[i];
        assert(x * by <= 0xffff_ffff * 0xffff_ffff) by (nonlinear_arith)
            requires
                x <= 0xffff_ffff,
                by <= 0xffff_ffff,
        ;
        let t: u64 = x as u64 * by as u64 + carry;
        let digit: u32 = (t % 0x1_0000_0000) as u32;
        let next: u64 = t / 0x1_0000_0000;
        proof {
            lemma_low(a@, i as int);
            lemma_value_push(out@, digit);
            let u = unit(i as nat);
            let l = low(a@, i as int);
            assert(digit as nat * u + next as nat * (0x1_0000_0000 * u) + l * by == (l + x as nat
                * u) * by + carry as nat * u) by (nonlinear_arith)
                requires
                    digit + next * 0x1_0000_0000 == x * by + carry,
            ;
        }
        out.push(digit);
        carry = next;
        i = i + 1;
    }
    proof {
        lemma_low(a@, a@.len() as int);
        lemma_value_push(out@, carry as u32);
    }
    out.push(carry as u32);
    trim(&mut out);
    out
}

/// Moves every limb up by one place.
fn raised(a: &Vec<u32>) -> (out: Vec<u32>)
    ensures
        value(out@) == 0x1_0000_0000 * value(a@),
{
    let mut out: Vec<u32> = Vec::new();
    out.push(0);
    let mut i: usize = 0;
    while i < a.len()
        invariant
            i <= a@.len(),
            out@.len() == i + 1,
            out@[0] == 0,
            forall|k: int| 0 <= k < i ==> #[trigger] out@[k + 1] == a@[k],
        decreases a@.len() - i,
    {
        out.push(a[i]);
        i = i + 1;
    }
    proof {
        lemma_value_head(out@);
        assert(out@.skip(1) =~= a@);
    }
    out
}

fn product(a: &Vec<u32>, b: &Vec<u32>) -> (out: Vec<u32>)
    ensures
        value(out@) == value(a@) * value(b@),
{
    let mut out: Vec<u32> = Vec::new();
    let mut i: usize = a.len();
    proof {
        assert(a@.skip(i as int) =~= Seq::empty());
        assert(0 * value(b@) == 0) by (nonlinear_arith);
    }
    while i > 0
        invariant
            i <= a@.len(),
            value(out@) == value(a@.skip(i as int)) * value(b@),
        decreases i,
    {
        i = i - 1;
        let up = raised(&out);
        let row = scaled(b, a[i]);
        proof {
            let top = a@.skip(i as int);
            lemma_value_head(top);
            assert(top.skip(1) =~= a@.skip(i + 1));
            let x = a@[i as int] as nat;
            let t = value(a@.skip(i + 1));
            let y = value(b@);
            assert((x + 0x1_0000_0000 * t) * y == 0x1_0000_0000 * (t * y) + y * x)
                by (nonlinear_arith);
        }
        out = sum(&up, &row);
    }
    assert(a@.skip(0) =~= a@);
    out
}

/// How often one goes into another, and what is left.
fn quotient(a: &Vec<u32>, d: &Vec<u32>) -> (r: (Vec<u32>, Vec<u32>))
    requires
        value(d@) > 0,
    ensures
        value(a@) == value(r.0@) * value(d@) + value(r.1@),
        value(r.1@) < value(d@),
    decreases
            (if value(a@) >= value(d@) {
                value(a@) - value(d@) + 1
            } else {
                0
            }),
{
    let (_, short) = difference(a, d);
    if short {
        let none: Vec<u32> = Vec::new();
        let left = vstd::slice::slice_to_vec(a.as_slice());
        assert(0 * value(d@) == 0) by (nonlinear_arith);
        return (none, left);
    }
    let twice = sum(d, d);
    let (half, over) = quotient(a, &twice);
    let even = sum(&half, &half);
    let (rest, fits_no_more) = difference(&over, d);
    let ghost q = value(half@);
    let ghost v = value(d@);
    if fits_no_more {
        assert((q + q) * v == q * (v + v)) by (nonlinear_arith);
        (even, over)
    } else {
        let mut one: Vec<u32> = Vec::new();
        one.push(1);
        proof {
            assert(one@.drop_last() =~= Seq::empty());
            reveal_with_fuel(value, 2);
            assert((q + q + 1) * v == q * (v + v) + v) by (nonlinear_arith);
        }
        (sum(&even, &one), rest)
    }
}

/// An integer of any size.
#[derive(Clone, Debug)]
pub struct Big {
    negative: bool,
    limbs: Vec<u32>,
}

impl View for Big {
    type V = int;

    closed spec fn view(&self) -> int {
        if self.negative {
            -(value(self.limbs@) as int)
        } else {
            value(self.limbs@) as int
        }
    }
}

impl Big {
    /// An integer from one that a machine word holds.
    pub fn of(n: i128) -> (b: Big)
        ensures
            b@ == n,
    {
        let negative: bool = n < 0;
        let size: u128 = if negative {
            (-(n + 1)) as u128 + 1
        } else {
            n as u128
        };
        Big { negative, limbs: limbs_of(size) }
    }

    /// An integer from one that a machine word without a sign holds.
    pub fn of_size(n: u128) -> (b: Big)
        ensures
            b@ == n,
    {
        Big { negative: false, limbs: limbs_of(n) }
    }

    /// The same integer again.
    pub fn copy(&self) -> (b: Big)
        ensures
            b@ == self@,
    {
        Big {
            negative: self.negative,
            limbs: vstd::slice::slice_to_vec(self.limbs.as_slice()),
        }
    }

    /// The integer in a machine word, where it fits.
    pub fn word(&self) -> (n: Option<i128>)
        ensures
            n matches Some(v) ==> v == self@,
            n is None <==> self@ > i128::MAX || self@ < i128::MIN,
    {
        match size_of(&self.limbs) {
            None => None,
            Some(size) => if self.negative {
                if size == 0 {
                    Some(0)
                } else if size <= 0x8000_0000_0000_0000_0000_0000_0000_0000 {
                    Some(-((size - 1) as i128) - 1)
                } else {
                    None
                }
            } else if size <= 0x7fff_ffff_ffff_ffff_ffff_ffff_ffff_ffff {
                Some(size as i128)
            } else {
                None
            },
        }
    }

    pub fn is_negative(&self) -> (yes: bool)
        ensures
            yes == (self@ < 0),
    {
        if self.negative {
            let none: Vec<u32> = Vec::new();
            difference(&none, &self.limbs).1
        } else {
            false
        }
    }

    pub fn negated(&self) -> (b: Big)
        ensures
            b@ == -self@,
    {
        Big {
            negative: !self.negative,
            limbs: vstd::slice::slice_to_vec(self.limbs.as_slice()),
        }
    }

    pub fn plus(&self, other: &Big) -> (b: Big)
        ensures
            b@ == self@ + other@,
    {
        if self.negative == other.negative {
            Big { negative: self.negative, limbs: sum(&self.limbs, &other.limbs) }
        } else {
            let (left, short) = difference(&self.limbs, &other.limbs);
            if short {
                let (left, _) = difference(&other.limbs, &self.limbs);
                Big { negative: other.negative, limbs: left }
            } else {
                Big { negative: self.negative, limbs: left }
            }
        }
    }

    pub fn minus(&self, other: &Big) -> (b: Big)
        ensures
            b@ == self@ - other@,
    {
        self.plus(&other.negated())
    }

    pub fn times(&self, other: &Big) -> (b: Big)
        ensures
            b@ == self@ * other@,
    {
        proof {
            let x = value(self.limbs@) as int;
            let y = value(other.limbs@) as int;
            assert((-x) * y == -(x * y) && x * (-y) == -(x * y) && (-x) * (-y) == x * y)
                by (nonlinear_arith);
        }
        Big {
            negative: self.negative != other.negative,
            limbs: product(&self.limbs, &other.limbs),
        }
    }

    pub fn at_most(&self, other: &Big) -> (yes: bool)
        ensures
            yes == (self@ <= other@),
    {
        !other.minus(self).is_negative()
    }

    /// Division that rounds down.
    pub fn over(&self, d: &Big) -> (q: Big)
        requires
            d@ > 0,
        ensures
            q@ == self@ / d@,
    {
        if let (Some(n), Some(v)) = (self.word(), d.word()) {
            if v <= 0x3fff_ffff_ffff_ffff_ffff_ffff_ffff_ffff && n
                >= -0x4000_0000_0000_0000_0000_0000_0000_0000 {
                return Big::of(floor_div(n, v));
            }
        }
        let ghost n = self@;
        let ghost v = d@;
        let ghost m = value(self.limbs@) as int;
        let (q, r) = quotient(&self.limbs, &d.limbs);
        let none: Vec<u32> = Vec::new();
        let (_, something_left) = difference(&none, &r);
        let ghost w = value(q@) as int;
        let ghost left = value(r@) as int;
        assert(value(d.limbs@) == v);
        if !self.negative {
            proof {
                vstd::arithmetic::div_mod::lemma_fundamental_div_mod_converse(n, v, w, left);
            }
            Big { negative: false, limbs: q }
        } else if !something_left {
            proof {
                assert(n == (-w) * v + 0) by (nonlinear_arith)
                    requires
                        n == -m,
                        m == w * v + left,
                        left == 0,
                ;
                vstd::arithmetic::div_mod::lemma_fundamental_div_mod_converse(n, v, -w, 0);
            }
            Big { negative: true, limbs: q }
        } else {
            let up = Big { negative: true, limbs: q };
            proof {
                assert(n == (-w - 1) * v + (v - left)) by (nonlinear_arith)
                    requires
                        n == -m,
                        m == w * v + left,
                ;
                vstd::arithmetic::div_mod::lemma_fundamental_div_mod_converse(
                    n,
                    v,
                    -w - 1,
                    v - left,
                );
            }
            up.minus(&Big::of(1))
        }
    }
}

impl PartialEq for Big {
    fn eq(&self, other: &Big) -> (same: bool) {
        self.at_most(other) && other.at_most(self)
    }
}

impl vstd::std_specs::cmp::PartialEqSpecImpl for Big {
    open spec fn obeys_eq_spec() -> bool {
        true
    }

    open spec fn eq_spec(&self, other: &Big) -> bool {
        self@ == other@
    }
}

impl Eq for Big {}

/// `root` is the square root of `n`, rounded down.
pub open spec fn is_root(root: int, n: int) -> bool {
    0 <= root && root * root <= n < (root + 1) * (root + 1)
}

/// Two to the power `n`.
pub open spec fn two_to(n: nat) -> nat
    decreases n,
{
    if n == 0 {
        1
    } else {
        2 * two_to((n - 1) as nat)
    }
}

impl Big {
    /// Two to the power `n`.
    pub fn power_of_two(n: u32) -> (b: Big)
        ensures
            b@ == two_to(n as nat),
    {
        let mut b = Big::of(1);
        let mut i: u32 = 0;
        while i < n
            invariant
                i <= n,
                b@ == two_to(i as nat),
            decreases n - i,
        {
            b = b.plus(&b);
            i = i + 1;
        }
        b
    }

    /// The square root, rounded down.
    pub fn square_root(&self) -> (root: Big)
        requires
            self@ >= 0,
        ensures
            is_root(root@, self@),
        decreases self@,
    {
        if self.at_most(&Big::of(0)) {
            assert(is_root(0, 0)) by (nonlinear_arith);
            return Big::of(0);
        }
        let half = self.over(&Big::of(4)).square_root();
        let even = half.plus(&half);
        let odd = even.plus(&Big::of(1));
        let ghost h = half@;
        let ghost n = self@;
        let fits: bool = odd.times(&odd).at_most(self);
        proof {
            assert(4 * (h * h) == (2 * h) * (2 * h)) by (nonlinear_arith);
            assert((2 * h + 2) * (2 * h + 2) == 4 * ((h + 1) * (h + 1))) by (nonlinear_arith);
            assert(h * h <= n / 4 < (h + 1) * (h + 1));
        }
        if fits {
            odd
        } else {
            even
        }
    }

    /// Appends the digits of a number that is not negative.
    pub fn put_decimal(&self, out: &mut String)
        requires
            self@ >= 0,
        ensures
            final(out)@ == old(out)@ + text::decimal(self@ as nat),
        decreases self@,
    {
        if let Some(n) = self.word() {
            text::put_decimal(out, n as u128);
            return;
        }
        let ten = Big::of(10);
        let rest = self.over(&ten);
        let last = self.minus(&rest.times(&ten));
        let ghost before = out@;
        rest.put_decimal(out);
        if let Some(d) = last.word() {
            out.push((48u8 + d as u8) as char);
        }
        assert(out@ =~= before + text::decimal(self@ as nat));
    }

    /// Whether a number is even.
    fn is_even(&self) -> (yes: bool)
        ensures
            yes == (self@ % 2 == 0),
    {
        let half = self.over(&Big::of(2));
        let left = self.minus(&half.plus(&half));
        left.at_most(&Big::of(0))
    }

    /// The nearest integer to a fraction, the even one of two that are equally near.
    fn nearest_over(&self, unit: &Big) -> (q: Big)
        requires
            self@ >= 0,
            unit@ > 0,
        ensures
            q@ == text::nearest_even(self@ as nat, unit@ as nat),
    {
        let down = self.over(unit);
        let left = self.minus(&down.times(unit));
        let twice = left.plus(&left);
        let ghost n = self@;
        let ghost u = unit@;
        proof {
            vstd::arithmetic::div_mod::lemma_fundamental_div_mod(n, u);
            assert((n / u) * u == u * (n / u)) by (nonlinear_arith);
            vstd::arithmetic::div_mod::lemma_div_pos_is_pos(n, u);
        }
        if !unit.at_most(&twice) {
            return down;
        }
        if twice.at_most(unit) && down.is_even() {
            return down;
        }
        down.plus(&Big::of(1))
    }

    /// Appends `self / unit` rounded to `places` digits behind the point.
    pub fn put_fixed(&self, out: &mut String, unit: u128, places: u8)
        requires
            unit > 0,
            places <= 9,
        ensures
            final(out)@ == old(out)@ + text::fixed(self@, unit as nat, places as nat),
    {
        let ghost before = out@;
        let negative: bool = self.is_negative();
        let size = if negative {
            self.negated()
        } else {
            self.copy()
        };
        let ten: u128 = text::power_of_ten(places);
        let ten = Big::of_size(ten);
        let ghost m = size@;
        let ghost t = text::ten_to(places as nat);
        assert(m * t >= 0) by (nonlinear_arith)
            requires
                m >= 0,
                t >= 0,
        ;
        let count = size.times(&ten).nearest_over(&Big::of_size(unit));
        if negative {
            out.push('-');
        }
        if places == 0 {
            count.put_decimal(out);
        } else {
            let whole = count.over(&ten);
            let part = count.minus(&whole.times(&ten));
            proof {
                vstd::arithmetic::div_mod::lemma_fundamental_div_mod(count@, t as int);
                assert((count@ / (t as int)) * t == t * (count@ / (t as int))) by (nonlinear_arith);
                vstd::arithmetic::div_mod::lemma_div_pos_is_pos(count@, t as int);
            }
            whole.put_decimal(out);
            out.push('.');
            if let Some(part) = part.word() {
                text::put_zero_padded(out, part as u128, places as usize);
            }
        }
        assert(out@ =~= before + text::fixed(self@, unit as nat, places as nat));
    }

    /// The same with a plus sign where the number is not negative.
    pub fn put_fixed_with_sign(&self, out: &mut String, unit: u128, places: u8)
        requires
            unit > 0,
            places <= 9,
        ensures
            final(out)@ == old(out)@ + text::fixed_with_sign(self@, unit as nat, places as nat),
    {
        let ghost before = out@;
        if !self.is_negative() {
            out.push('+');
        }
        self.put_fixed(out, unit, places);
        assert(out@ =~= before + text::fixed_with_sign(self@, unit as nat, places as nat));
    }

    /// Appends the same as [`Big::put_fixed`], pushed to the right of a column.
    pub fn put_fixed_column(&self, out: &mut String, unit: u128, places: u8, width: usize)
        requires
            unit > 0,
            places <= 9,
        ensures
            final(out)@ == old(out)@ + text::fixed_column(
                self@,
                unit as nat,
                places as nat,
                width as nat,
            ),
    {
        let mut piece = String::new();
        self.put_fixed(&mut piece, unit, places);
        assert(piece@ =~= text::fixed(self@, unit as nat, places as nat));
        text::put_pad_start(out, piece.as_str(), width, ' ');
    }
}

/// The limbs of a machine word.
fn limbs_of(n: u128) -> (limbs: Vec<u32>)
    ensures
        value(limbs@) == n,
{
    let mut limbs: Vec<u32> = Vec::new();
    let mut rest: u128 = n;
    assert(rest as nat * unit(0) == n) by (nonlinear_arith)
        requires
            unit(0) == 1,
            rest == n,
    ;
    while rest > 0
        invariant
            value(limbs@) + rest as nat * unit(limbs@.len()) == n,
        decreases rest,
    {
        let x: u32 = (rest % 0x1_0000_0000) as u32;
        let next: u128 = rest / 0x1_0000_0000;
        proof {
            lemma_value_push(limbs@, x);
            let u = unit(limbs@.len());
            assert(x as nat * u + next as nat * (0x1_0000_0000 * u) == rest as nat * u)
                by (nonlinear_arith)
                requires
                    x + next * 0x1_0000_0000 == rest,
            ;
        }
        limbs.push(x);
        rest = next;
    }
    assert(0 * unit(limbs@.len()) == 0) by (nonlinear_arith);
    limbs
}

/// What some limbs spell, where a machine word holds it.
fn size_of(limbs: &Vec<u32>) -> (n: Option<u128>)
    ensures
        n matches Some(v) ==> v == value(limbs@),
        n is None <==> value(limbs@) > u128::MAX,
{
    let mut n: usize = limbs.len();
    while n > 0 && limbs[n - 1] == 0
        invariant
            n <= limbs@.len(),
            forall|k: int| n <= k < limbs@.len() ==> #[trigger] limbs@[k] == 0,
        decreases n,
    {
        n = n - 1;
    }
    proof {
        lemma_value_padded(limbs@, n as int);
        reveal_with_fuel(unit, 5);
        assert(unit(4) == 0x1_0000_0000_0000_0000_0000_0000_0000_0000);
    }
    if n > 4 {
        proof {
            lemma_value_take(limbs@, n - 1);
            lemma_unit_grows(4, (n - 1) as nat);
            let x = limbs@[n - 1] as nat;
            let u = unit((n - 1) as nat);
            assert(x * u >= u) by (nonlinear_arith)
                requires
                    x >= 1,
            ;
        }
        return None;
    }
    let mut size: u128 = 0;
    let mut step: u128 = 1;
    let mut i: usize = 0;
    assert(limbs@.take(0) =~= Seq::empty());
    while i < n
        invariant
            i <= n <= 4,
            n <= limbs@.len(),
            size == value(limbs@.take(i as int)),
            i < 4 ==> step == unit(i as nat),
            unit(4) == 0x1_0000_0000_0000_0000_0000_0000_0000_0000,
        decreases n - i,
    {
        proof {
            lemma_value_take(limbs@, i as int);
            lemma_value_bound(limbs@.take(i + 1));
            lemma_unit_grows((i + 1) as nat, 4);
        }
        let x: u128 = limbs[i] as u128;
        assert(0 <= x * step) by (nonlinear_arith);
        size = size + x * step;
        i = i + 1;
        if i < 4 {
            proof {
                lemma_unit_grows(i as nat, 3);
                reveal_with_fuel(unit, 5);
            }
            step = step * 0x1_0000_0000;
        }
    }
    Some(size)
}

proof fn lemma_unit_grows(i: nat, j: nat)
    requires
        i <= j,
    ensures
        1 <= unit(i) <= unit(j),
    decreases j,
{
    if i < j {
        lemma_unit_grows(i, (j - 1) as nat);
    } else if i > 0 {
        lemma_unit_grows((i - 1) as nat, (i - 1) as nat);
    }
}

} // verus!
