//! What arrived on a characteristic, in the terms that decode it: how much, how much of it
//! was new, and which bytes moved.

use std::collections::{BTreeMap, BTreeSet};

use vstd::prelude::*;

use crate::text;

verus! {

broadcast use {vstd::std_specs::btree::group_btree_axioms, vstd::laws_cmp::group_laws_cmp};

/// What arrived on a characteristic.
#[derive(Debug)]
pub struct Digest {
    pub count: usize,
    /// The distinct payloads, in the order they first came.
    pub unique: Vec<Vec<u8>>,
    /// Distinct values seen at each byte position, positionally.
    pub per_byte: Vec<BTreeSet<u8>>,
}

/// What arrived, as sequences and sets.
pub struct DigestView {
    pub count: usize,
    pub unique: Seq<Seq<u8>>,
    pub per_byte: Seq<Set<u8>>,
}

impl View for Digest {
    type V = DigestView;

    open spec fn view(&self) -> DigestView {
        DigestView {
            count: self.count,
            unique: self.unique@.map_values(|bytes: Vec<u8>| bytes@),
            per_byte: self.per_byte@.map_values(|seen: BTreeSet<u8>| seen@),
        }
    }
}

/// Nothing has arrived.
pub open spec fn nothing() -> DigestView {
    DigestView { count: 0, unique: Seq::empty(), per_byte: Seq::empty() }
}

impl Default for Digest {
    fn default() -> (digest: Digest)
        ensures
            digest@ == nothing(),
    {
        let digest = Digest { count: 0, unique: Vec::new(), per_byte: Vec::new() };
        assert(digest@.unique =~= Seq::empty());
        assert(digest@.per_byte =~= Seq::empty());
        digest
    }
}

/// The values at each position, with one more payload among them. It widens to the longest
/// payload.
pub open spec fn widened(per_byte: Seq<Set<u8>>, value: Seq<u8>) -> Seq<Set<u8>> {
    Seq::new(
        if per_byte.len() > value.len() {
            per_byte.len()
        } else {
            value.len()
        },
        |i: int|
            {
                let held = if i < per_byte.len() {
                    per_byte[i]
                } else {
                    Set::empty()
                };
                if i < value.len() {
                    held.insert(value[i])
                } else {
                    held
                }
            },
    )
}

/// A digest with one more payload in it.
pub open spec fn added(d: DigestView, value: Seq<u8>) -> DigestView {
    DigestView {
        count: if d.count == usize::MAX {
            usize::MAX
        } else {
            (d.count + 1) as usize
        },
        unique: if d.unique.contains(value) {
            d.unique
        } else {
            d.unique.push(value)
        },
        per_byte: widened(d.per_byte, value),
    }
}

/// How a position's distinct values are shown: `.` for one, `+` for more than nine.
pub open spec fn moved(n: nat) -> char {
    if n == 1 {
        '.'
    } else if n <= 9 {
        text::digit(n)
    } else {
        '+'
    }
}

/// One character per byte position.
pub open spec fn volatility_text(per_byte: Seq<Set<u8>>) -> Seq<char> {
    per_byte.map_values(|seen: Set<u8>| moved(seen.len()))
}

/// How many of the payloads are so long.
pub open spec fn of_length(unique: Seq<Seq<u8>>, len: nat) -> nat
    decreases unique.len(),
{
    if unique.len() == 0 {
        0
    } else if unique.last().len() == len {
        of_length(unique.drop_last(), len) + 1
    } else {
        of_length(unique.drop_last(), len)
    }
}

/// The longest of them.
pub open spec fn longest(unique: Seq<Seq<u8>>) -> nat
    decreases unique.len(),
{
    if unique.len() == 0 {
        0
    } else {
        let before = longest(unique.drop_last());
        if unique.last().len() > before {
            unique.last().len()
        } else {
            before
        }
    }
}

/// The lengths below a bound, each with how many payloads have it, the shortest first.
pub open spec fn length_list(unique: Seq<Seq<u8>>, bound: nat) -> Seq<char>
    decreases bound,
{
    if bound == 0 {
        Seq::empty()
    } else {
        let before = length_list(unique, (bound - 1) as nat);
        let n = of_length(unique, (bound - 1) as nat);
        if n == 0 {
            before
        } else {
            before + (if before.len() > 0 {
                ", "@
            } else {
                Seq::empty()
            }) + text::decimal((bound - 1) as nat) + ": "@ + text::decimal(n)
        }
    }
}

/// The lengths, each with how many payloads have it, in braces.
pub open spec fn lengths_text(unique: Seq<Seq<u8>>) -> Seq<char> {
    Seq::<char>::empty() + "{"@ + length_list(unique, longest(unique) + 1) + "}"@
}

impl Digest {
    fn holds(&self, value: &[u8]) -> (yes: bool)
        ensures
            yes == self@.unique.contains(value@),
    {
        let mut i: usize = 0;
        while i < self.unique.len()
            invariant
                i <= self.unique@.len(),
                forall|k: int| 0 <= k < i ==> (#[trigger] self.unique@[k])@ != value@,
            decreases self.unique@.len() - i,
        {
            if text::same_bytes(self.unique[i].as_slice(), value) {
                assert(self@.unique[i as int] == value@);
                return true;
            }
            i = i + 1;
        }
        assert forall|k: int| 0 <= k < self@.unique.len() implies self@.unique[k] != value@ by {
            assert(self.unique@[k]@ != value@);
        }
        false
    }

    /// Takes in one more payload. It widens to the longest one.
    pub fn add(&mut self, value: &[u8])
        ensures
            final(self)@ == added(old(self)@, value@),
    {
        let ghost before = self@;
        self.count = self.count.saturating_add(1);
        if !self.holds(value) {
            let copy = vstd::slice::slice_to_vec(value);
            self.unique.push(copy);
            assert(self@.unique =~= before.unique.push(value@));
        }
        let ghost given = self.per_byte@;
        while self.per_byte.len() < value.len()
            invariant
                self.count == added(before, value@).count,
                self@.unique == added(before, value@).unique,
                given.len() <= self.per_byte@.len(),
                self.per_byte@.len() > given.len() ==> self.per_byte@.len() <= value@.len(),
                before.per_byte == given.map_values(|seen: BTreeSet<u8>| seen@),
                forall|k: int| 0 <= k < given.len() ==> self.per_byte@[k] == given[k],
                forall|k: int|
                    given.len() <= k < self.per_byte@.len() ==> (#[trigger] self.per_byte@[k])@
                        == Set::<u8>::empty(),
            decreases value@.len() - self.per_byte@.len(),
        {
            self.per_byte.push(BTreeSet::new());
        }
        let mut i: usize = 0;
        let ghost wide = self.per_byte@;
        while i < value.len()
            invariant
                i <= value@.len() <= wide.len(),
                self.per_byte@.len() == wide.len(),
                self.count == added(before, value@).count,
                self@.unique == added(before, value@).unique,
                forall|k: int|
                    0 <= k < i ==> (#[trigger] self.per_byte@[k])@ == wide[k]@.insert(value@[k]),
                forall|k: int| i <= k < wide.len() ==> self.per_byte@[k] == wide[k],
            decreases value@.len() - i,
        {
            self.per_byte[i].insert(value[i]);
            i = i + 1;
        }
        assert(self@.per_byte =~= widened(before.per_byte, value@)) by {
            assert forall|k: int| 0 <= k < self@.per_byte.len() implies self@.per_byte[k] == widened(
                before.per_byte,
                value@,
            )[k] by {
                assert(self@.per_byte[k] == self.per_byte@[k]@);
                if k < given.len() {
                    assert(before.per_byte[k] == given[k]@);
                } else {
                    assert(wide[k]@ == Set::<u8>::empty());
                }
            }
        }
    }

    /// One digit per byte position: how many distinct values that position took, `.` for
    /// one and `+` for more than nine. A run of `.` is a header or a constant; a run of
    /// digits is a field.
    pub fn volatility(&self) -> (out: String)
        ensures
            out@ == volatility_text(self@.per_byte),
    {
        let mut out = String::new();
        let mut i: usize = 0;
        let ghost whole = volatility_text(self@.per_byte);
        assert(whole.take(0) =~= Seq::empty());
        while i < self.per_byte.len()
            invariant
                i <= self.per_byte@.len(),
                whole == volatility_text(self@.per_byte),
                out@ == whole.take(i as int),
            decreases self.per_byte@.len() - i,
        {
            let n: usize = self.per_byte[i].len();
            assert(self@.per_byte[i as int] == self.per_byte@[i as int]@);
            assert(n == self@.per_byte[i as int].len());
            let c: char = if n == 1 {
                '.'
            } else if n <= 9 {
                text::hex_digit_char(n as u8)
            } else {
                '+'
            };
            out.push(c);
            assert(whole[i as int] == c);
            assert(whole.take(i + 1) =~= whole.take(i as int).push(c));
            i = i + 1;
        }
        assert(whole.take(i as int) =~= whole);
        out
    }

    fn count_of_length(&self, len: usize) -> (n: usize)
        ensures
            n == of_length(self@.unique, len as nat),
            n <= self.unique@.len(),
    {
        let mut n: usize = 0;
        let mut i: usize = 0;
        assert(self@.unique.take(0) =~= Seq::empty());
        while i < self.unique.len()
            invariant
                n <= i <= self.unique@.len(),
                n == of_length(self@.unique.take(i as int), len as nat),
            decreases self.unique@.len() - i,
        {
            assert(self@.unique.take(i + 1).drop_last() =~= self@.unique.take(i as int));
            assert(self@.unique[i as int] == self.unique@[i as int]@);
            if self.unique[i].len() == len {
                n = n + 1;
            }
            i = i + 1;
        }
        assert(self@.unique.take(i as int) =~= self@.unique);
        n
    }

    /// How many distinct payloads there are of each length.
    pub fn lengths(&self) -> (lengths: BTreeMap<usize, usize>)
        ensures
            forall|len: usize| #[trigger]
                lengths@.dom().contains(len) <==> of_length(self@.unique, len as nat) > 0,
            forall|len: usize|
                lengths@.dom().contains(len) ==> #[trigger] lengths@[len] == of_length(
                    self@.unique,
                    len as nat,
                ),
    {
        let mut lengths: BTreeMap<usize, usize> = BTreeMap::new();
        let mut i: usize = 0;
        while i < self.unique.len()
            invariant
                i <= self.unique@.len(),
                forall|len: usize| #[trigger]
                    lengths@.dom().contains(len) ==> of_length(self@.unique, len as nat) > 0
                        && lengths@[len] == of_length(self@.unique, len as nat),
                forall|k: int|
                    0 <= k < i ==> lengths@.dom().contains(
                        (#[trigger] self.unique@[k])@.len() as usize,
                    ),
            decreases self.unique@.len() - i,
        {
            let len: usize = self.unique[i].len();
            let n: usize = self.count_of_length(len);
            proof {
                assert(self@.unique[i as int].len() == len);
                lemma_length_found(self@.unique, i as int);
            }
            lengths.insert(len, n);
            i = i + 1;
        }
        assert forall|len: usize| of_length(self@.unique, len as nat) > 0 implies #[trigger]
        lengths@.dom().contains(len) by {
            let k = lemma_length_has_one(self@.unique, len as nat);
            assert(self@.unique[k] == self.unique@[k]@);
            assert(self.unique@[k]@.len() as usize == len);
        }
        lengths
    }

    /// The lengths, in words.
    pub fn lengths_string(&self) -> (out: String)
        ensures
            out@ == lengths_text(self@.unique),
    {
        let mut most: usize = 0;
        let mut i: usize = 0;
        assert(self@.unique.take(0) =~= Seq::empty());
        while i < self.unique.len()
            invariant
                i <= self.unique@.len(),
                most == longest(self@.unique.take(i as int)),
            decreases self.unique@.len() - i,
        {
            assert(self@.unique.take(i + 1).drop_last() =~= self@.unique.take(i as int));
            assert(self@.unique[i as int] == self.unique@[i as int]@);
            if self.unique[i].len() > most {
                most = self.unique[i].len();
            }
            i = i + 1;
        }
        assert(self@.unique.take(i as int) =~= self@.unique);
        let mut list = String::new();
        let mut len: u128 = 0;
        let bound: u128 = most as u128 + 1;
        assert(list@ =~= length_list(self@.unique, 0));
        while len < bound
            invariant
                len <= bound,
                bound == most + 1,
                list@ == length_list(self@.unique, len as nat),
            decreases bound - len,
        {
            let n: usize = self.count_of_length(len as usize);
            if n > 0 {
                if !list.as_str().is_empty() {
                    list.push_str(", ");
                }
                text::put_decimal(&mut list, len);
                list.push_str(": ");
                text::put_decimal(&mut list, n as u128);
                assert(list@ =~= length_list(self@.unique, (len + 1) as nat));
            }
            len = len + 1;
        }
        let mut out = String::new();
        out.push_str("{");
        out.push_str(list.as_str());
        out.push_str("}");
        out
    }
}

proof fn lemma_length_found(unique: Seq<Seq<u8>>, i: int)
    requires
        0 <= i < unique.len(),
    ensures
        of_length(unique, unique[i].len()) > 0,
    decreases unique.len(),
{
    if i < unique.len() - 1 {
        lemma_length_found(unique.drop_last(), i);
    }
}

proof fn lemma_length_has_one(unique: Seq<Seq<u8>>, len: nat) -> (i: int)
    requires
        of_length(unique, len) > 0,
    ensures
        0 <= i < unique.len(),
        unique[i].len() == len,
    decreases unique.len(),
{
    if unique.last().len() == len {
        unique.len() - 1
    } else {
        lemma_length_has_one(unique.drop_last(), len)
    }
}

/// A digest of these payloads, in the order they came.
pub open spec fn digest_of(values: Seq<Seq<u8>>) -> DigestView
    decreases values.len(),
{
    if values.len() == 0 {
        nothing()
    } else {
        added(digest_of(values.drop_last()), values.last())
    }
}

/// What a digest of payloads holds: each distinct one once, at most as many as came, and at
/// each position the values that some payload has there.
pub proof fn a_digest_holds_what_came(values: Seq<Seq<u8>>)
    requires
        values.len() <= usize::MAX,
    ensures
        ({
            let d = digest_of(values);
            &&& d.count == values.len()
            &&& d.unique.no_duplicates()
            &&& d.unique.len() <= values.len()
            &&& forall|v: Seq<u8>|
                #![trigger d.unique.contains(v)]
                #![trigger values.contains(v)]
                d.unique.contains(v) <==> values.contains(v)
            &&& forall|i: int, b: u8|
                0 <= i < d.per_byte.len() ==> (#[trigger] d.per_byte[i].contains(b)
                    <==> exists|k: int|
                    0 <= k < values.len() && i < (#[trigger] values[k]).len() && values[k][i] == b)
            &&& forall|k: int|
                0 <= k < values.len() ==> (#[trigger] values[k]).len() <= d.per_byte.len()
        }),
    decreases values.len(),
{
    if values.len() > 0 {
        let front = values.drop_last();
        let value = values.last();
        a_digest_holds_what_came(front);
        let e = digest_of(front);
        let d = digest_of(values);
        assert(values =~= front.push(value));
        assert forall|v: Seq<u8>|
            #![trigger d.unique.contains(v)]
            #![trigger values.contains(v)]
            d.unique.contains(v) <==> values.contains(v) by {
            if values.contains(v) && v != value {
                let k = choose|k: int| 0 <= k < values.len() && values[k] == v;
                assert(front[k] == v);
                assert(front.contains(v));
                assert(e.unique.contains(v));
                let j = choose|j: int| 0 <= j < e.unique.len() && e.unique[j] == v;
                assert(d.unique[j] == v);
            }
            if d.unique.contains(v) && v != value {
                let j = choose|j: int| 0 <= j < d.unique.len() && d.unique[j] == v;
                assert(e.unique[j] == v);
                assert(e.unique.contains(v));
                assert(front.contains(v));
                let k = choose|k: int| 0 <= k < front.len() && front[k] == v;
                assert(values[k] == v);
            }
            if v == value {
                assert(values[values.len() - 1] == v);
                if !e.unique.contains(value) {
                    assert(d.unique[d.unique.len() - 1] == v);
                }
            }
        }
        assert forall|i: int, b: u8| 0 <= i < d.per_byte.len() implies (
        #[trigger] d.per_byte[i].contains(b) <==> exists|k: int|
            0 <= k < values.len() && i < (#[trigger] values[k]).len() && values[k][i] == b) by {
            if i < e.per_byte.len() && e.per_byte[i].contains(b) {
                let k = choose|k: int|
                    0 <= k < front.len() && i < (#[trigger] front[k]).len() && front[k][i] == b;
                assert(values[k] == front[k]);
            }
            if exists|k: int|
                0 <= k < values.len() && i < (#[trigger] values[k]).len() && values[k][i] == b {
                let k = choose|k: int|
                    0 <= k < values.len() && i < (#[trigger] values[k]).len() && values[k][i] == b;
                if k < front.len() {
                    assert(front[k] == values[k]);
                    assert(front[k].len() <= e.per_byte.len());
                    assert(e.per_byte[i].contains(b));
                }
            }
            if i < value.len() && value[i] == b {
                assert(values[values.len() - 1] == value);
            }
        }
        assert forall|k: int| 0 <= k < values.len() implies (#[trigger] values[k]).len()
            <= d.per_byte.len() by {
            if k < front.len() {
                assert(values[k] == front[k]);
            }
        }
    }
}

/// A payload that has come before changes nothing but the count.
pub proof fn a_repeat_changes_only_the_count(values: Seq<Seq<u8>>, i: int)
    requires
        values.len() <= usize::MAX,
        0 <= i < values.len(),
    ensures
        added(digest_of(values), values[i]).unique == digest_of(values).unique,
        added(digest_of(values), values[i]).per_byte == digest_of(values).per_byte,
{
    a_digest_holds_what_came(values);
    let d = digest_of(values);
    let v = values[i];
    assert(values.contains(v));
    assert(widened(d.per_byte, v) =~= d.per_byte) by {
        assert forall|k: int| 0 <= k < d.per_byte.len() implies widened(d.per_byte, v)[k]
            == d.per_byte[k] by {
            if k < v.len() {
                assert(d.per_byte[k].contains(v[k]));
                assert(d.per_byte[k].insert(v[k]) =~= d.per_byte[k]);
            }
        }
    }
}

} // verus!
