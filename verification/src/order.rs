//! Putting things in order, and the least of a collection.

use vstd::prelude::*;

use crate::big::Big;

verus! {

/// Something with a place in an order.
pub trait Ranked: Sized {
    spec fn rank(self) -> int;
}

/// Something whose place in an order can be worked out.
pub trait Sortable: Ranked + Copy {
    fn rank_of(&self) -> (r: i128)
        ensures
            r == self.rank(),
    ;
}

impl Ranked for int {
    open spec fn rank(self) -> int {
        self
    }
}

/// A sequence in order with one more item put in its place, behind those of equal
/// rank.
pub open spec fn placed<T: Ranked>(s: Seq<T>, x: T) -> Seq<T>
    decreases s.len(),
{
    if s.len() == 0 || s.last().rank() <= x.rank() {
        s.push(x)
    } else {
        placed(s.drop_last(), x).push(s.last())
    }
}

/// A sequence in order of rank. Items of equal rank stay in the order they came in.
pub open spec fn ranked<T: Ranked>(s: Seq<T>) -> Seq<T>
    decreases s.len(),
{
    if s.len() == 0 {
        s
    } else {
        placed(ranked(s.drop_last()), s.last())
    }
}

/// No item comes before one of lower rank.
pub open spec fn in_order<T: Ranked>(s: Seq<T>) -> bool {
    forall|i: int, j: int| 0 <= i <= j < s.len() ==> (#[trigger] s[i]).rank() <= (#[trigger] s[j]).rank()
}

proof fn lemma_placed<T: Ranked>(s: Seq<T>, x: T, k: int)
    requires
        0 <= k <= s.len(),
        k == 0 || s[k - 1].rank() <= x.rank(),
        forall|j: int| k <= j < s.len() ==> (#[trigger] s[j]).rank() > x.rank(),
    ensures
        placed(s, x) == s.insert(k, x),
    decreases s.len(),
{
    if k == s.len() {
        assert(s.insert(k, x) =~= s.push(x));
    } else {
        assert(s.last() == s[s.len() - 1]);
        lemma_placed(s.drop_last(), x, k);
        assert(s.drop_last().insert(k, x).push(s.last()) =~= s.insert(k, x));
    }
}

proof fn lemma_placed_in_order<T: Ranked>(s: Seq<T>, x: T)
    requires
        in_order(s),
    ensures
        in_order(placed(s, x)),
        placed(s, x).len() == s.len() + 1,
        placed(s, x).to_multiset() == s.to_multiset().insert(x),
        s.len() > 0 && placed(s, x).last() != s.last() ==> placed(s, x).last() == x,
        s.len() == 0 ==> placed(s, x).last() == x,
    decreases s.len(),
{
    broadcast use vstd::seq_lib::group_to_multiset_ensures;

    if s.len() == 0 || s.last().rank() <= x.rank() {
        assert forall|i: int, j: int| 0 <= i <= j < s.push(x).len() implies (#[trigger] s.push(
            x,
        )[i]).rank() <= (#[trigger] s.push(x)[j]).rank() by {
            if j == s.len() && i < s.len() {
                assert(s[i].rank() <= s[s.len() - 1].rank());
            }
        }
    } else {
        let front = s.drop_last();
        assert(in_order(front)) by {
            assert forall|i: int, j: int| 0 <= i <= j < front.len() implies (#[trigger] front[i]).rank()
                <= (#[trigger] front[j]).rank() by {
                assert(s[i].rank() <= s[j].rank());
            }
        }
        lemma_placed_in_order(front, x);
        let p = placed(front, x);
        assert(s =~= front.push(s.last()));
        if front.len() > 0 {
            assert(s[front.len() - 1].rank() <= s[s.len() - 1].rank());
        }
        assert(p.last().rank() <= s.last().rank());
        assert forall|i: int, j: int| 0 <= i <= j < p.push(s.last()).len() implies (
        #[trigger] p.push(s.last())[i]).rank() <= (#[trigger] p.push(s.last())[j]).rank() by {
            if j == p.len() && i < p.len() {
                assert(p[i].rank() <= p[p.len() - 1].rank());
            }
        }
        assert(front.to_multiset().insert(x).insert(s.last()) =~= front.to_multiset().insert(
            s.last(),
        ).insert(x));
    }
}

/// A sequence put in order holds what it held before, each as often as before, and no
/// item comes before one of lower rank.
pub proof fn ranking_puts_everything_in_order<T: Ranked>(s: Seq<T>)
    ensures
        in_order(ranked(s)),
        ranked(s).len() == s.len(),
        ranked(s).to_multiset() == s.to_multiset(),
    decreases s.len(),
{
    broadcast use vstd::seq_lib::group_to_multiset_ensures;

    if s.len() > 0 {
        ranking_puts_everything_in_order(s.drop_last());
        lemma_placed_in_order(ranked(s.drop_last()), s.last());
        assert(s =~= s.drop_last().push(s.last()));
    }
}

/// What holds of every item of a sequence holds of every item of it put in order.
pub proof fn ranking_keeps_every_item<T: Ranked>(s: Seq<T>, holds: spec_fn(T) -> bool)
    requires
        forall|i: int| 0 <= i < s.len() ==> holds(#[trigger] s[i]),
    ensures
        ranked(s).len() == s.len(),
        forall|i: int| 0 <= i < s.len() ==> holds(#[trigger] ranked(s)[i]),
{
    broadcast use vstd::seq_lib::group_to_multiset_ensures;

    ranking_puts_everything_in_order(s);
    assert forall|i: int| 0 <= i < s.len() implies holds(#[trigger] ranked(s)[i]) by {
        let x = ranked(s)[i];
        assert(ranked(s).contains(x));
        assert(ranked(s).to_multiset().count(x) > 0);
        assert(s.to_multiset().count(x) > 0);
        assert(s.contains(x));
    }
}

/// Puts items in order of rank.
pub fn sort<T: Sortable>(items: &[T]) -> (sorted: Vec<T>)
    ensures
        sorted@ == ranked(items@),
{
    let mut sorted: Vec<T> = Vec::new();
    let mut i: usize = 0;
    assert(items@.take(0) =~= Seq::empty());
    while i < items.len()
        invariant
            i <= items.len(),
            sorted@ == ranked(items@.take(i as int)),
            sorted.len() == i,
        decreases items.len() - i,
    {
        let x = items[i];
        let r: i128 = x.rank_of();
        let mut k: usize = sorted.len();
        while k > 0 && sorted[k - 1].rank_of() > r
            invariant
                k <= sorted.len(),
                r == x.rank(),
                forall|j: int| k <= j < sorted.len() ==> (#[trigger] sorted@[j]).rank() > x.rank(),
            decreases k,
        {
            k = k - 1;
        }
        proof {
            lemma_placed(sorted@, x, k as int);
            assert(items@.take(i + 1).drop_last() =~= items@.take(i as int));
        }
        sorted.insert(k, x);
        i = i + 1;
    }
    assert(items@.take(i as int) =~= items@);
    sorted
}

/// The integers that some numbers are.
pub open spec fn numbers(items: Seq<Big>) -> Seq<int> {
    items.map_values(|b: Big| b@)
}

/// Puts numbers in order.
pub fn sort_numbers(items: &Vec<Big>) -> (sorted: Vec<Big>)
    ensures
        numbers(sorted@) == ranked(numbers(items@)),
{
    let mut sorted: Vec<Big> = Vec::new();
    let mut i: usize = 0;
    assert(numbers(items@).take(0) =~= Seq::empty());
    assert(numbers(sorted@) =~= Seq::empty());
    while i < items.len()
        invariant
            i <= items@.len(),
            numbers(sorted@) == ranked(numbers(items@).take(i as int)),
            sorted@.len() == i,
        decreases items@.len() - i,
    {
        let x = items[i].copy();
        let mut k: usize = sorted.len();
        while k > 0 && !sorted[k - 1].at_most(&x)
            invariant
                k <= sorted@.len(),
                forall|j: int| k <= j < sorted@.len() ==> (#[trigger] sorted@[j])@ > x@,
            decreases k,
        {
            k = k - 1;
        }
        proof {
            let so_far = numbers(sorted@);
            assert forall|j: int| k <= j < so_far.len() implies (#[trigger] so_far[j]).rank()
                > x@.rank() by {
                assert(sorted@[j]@ > x@);
            }
            lemma_placed(so_far, x@, k as int);
            assert(numbers(sorted@.insert(k as int, x)) =~= so_far.insert(k as int, x@));
            assert(numbers(items@).take(i + 1).drop_last() =~= numbers(items@).take(i as int));
        }
        sorted.insert(k, x);
        i = i + 1;
    }
    assert(numbers(items@).take(i as int) =~= numbers(items@));
    sorted
}

/// The least of some integers, if there are any.
pub open spec fn least(values: Seq<int>) -> Option<int>
    decreases values.len(),
{
    if values.len() == 0 {
        None
    } else {
        match least(values.drop_last()) {
            None => Some(values.last()),
            Some(m) => if values.last() < m {
                Some(values.last())
            } else {
                Some(m)
            },
        }
    }
}

/// The least is one of the integers, and none of them is less.
pub proof fn the_least_is_a_lower_bound(values: Seq<int>)
    ensures
        least(values) is None <==> values.len() == 0,
        least(values) matches Some(m) ==> values.contains(m) && forall|i: int|
            0 <= i < values.len() ==> m <= #[trigger] values[i],
    decreases values.len(),
{
    if values.len() > 0 {
        let front = values.drop_last();
        the_least_is_a_lower_bound(front);
        assert(values.last() == values[values.len() - 1]);
        if let Some(m) = least(front) {
            if front.contains(m) {
                let k = choose|k: int| 0 <= k < front.len() && front[k] == m;
                assert(values[k] == m);
            }
            assert forall|i: int| 0 <= i < values.len() implies least(values)->0 <= #[trigger] values[i] by {
                if i < front.len() {
                    assert(m <= front[i]);
                }
            }
        }
    }
}

/// The lesser of two, where either may be missing.
pub fn lesser(so_far: Option<i128>, value: i128) -> (m: Option<i128>)
    ensures
        m == (match so_far {
            None => Some(value),
            Some(s) => if value < s {
                Some(value)
            } else {
                Some(s)
            },
        }),
{
    match so_far {
        None => Some(value),
        Some(s) => if value < s {
            Some(value)
        } else {
            Some(s)
        },
    }
}

/// The lesser of two numbers, where the first may be missing.
pub fn lesser_number(so_far: Option<Big>, value: Big) -> (m: Option<Big>)
    ensures
        m matches Some(n) && n@ == (match so_far {
            None => value@,
            Some(s) => if value@ < s@ {
                value@
            } else {
                s@
            },
        }),
{
    match so_far {
        None => Some(value),
        Some(s) => if s.at_most(&value) {
            Some(s)
        } else {
            Some(value)
        },
    }
}

/// What is in order already stays as it is, items of equal rank among them.
pub proof fn what_is_in_order_stays_as_it_is<T: Ranked>(s: Seq<T>)
    requires
        in_order(s),
    ensures
        ranked(s) == s,
    decreases s.len(),
{
    if s.len() > 0 {
        let front = s.drop_last();
        assert forall|i: int, j: int| 0 <= i <= j < front.len() implies (#[trigger] front[i]).rank()
            <= (#[trigger] front[j]).rank() by {
            assert(s[i].rank() <= s[j].rank());
        }
        what_is_in_order_stays_as_it_is(front);
        if front.len() > 0 {
            assert(s[front.len() - 1].rank() <= s[s.len() - 1].rank());
            assert(front.last() == s[front.len() - 1]);
        }
        assert(front.push(s.last()) =~= s);
    }
}

} // verus!
