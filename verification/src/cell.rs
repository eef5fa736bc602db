//! Digits, the error type, the small set helpers and a single cell of the grid.

use std::collections::HashMap;
use std::collections::HashSet;
use vstd::prelude::*;

verus! {

broadcast use vstd::std_specs::hash::group_hash_axioms;

/// What can go wrong while solving.
#[derive(Debug, Clone, Copy, PartialEq, Eq, Structural)]
pub enum SolveError {
    /// A cell was left with no candidate (or with more than nine).
    InvalidCell,
    /// A cell's value was asked for while it still has several candidates.
    ValueNotKnown,
    /// The search tried every guess and none led to a solution.
    UnableToSolve,
}

/// A sudoku digit: 1 to 9.
pub open spec fn is_digit(d: int) -> bool {
    1 <= d <= 9
}

/// The nine digits as a set.
pub open spec fn digit_set() -> Set<u8> {
    Set::new(|d: u8| is_digit(d as int))
}

/// A list of known values is valid when every value is a digit and no value occurs twice.
pub open spec fn valid_known(known: Seq<u8>) -> bool {
    &&& forall|i: int| 0 <= i < known.len() ==> is_digit(#[trigger] known[i] as int)
    &&& forall|i: int, j: int| 0 <= i < j < known.len() ==> known[i] != known[j]
}

/// The digits 1 to 9, in increasing order.
pub fn digits() -> (res: Vec<u8>)
    ensures
        res@ == seq![1u8, 2u8, 3u8, 4u8, 5u8, 6u8, 7u8, 8u8, 9u8],
        res@.to_set() == digit_set(),
{
    let res = vec![1u8, 2u8, 3u8, 4u8, 5u8, 6u8, 7u8, 8u8, 9u8];
    proof {
        assert forall|d: u8| res@.to_set().contains(d) <==> digit_set().contains(d) by {
            if is_digit(d as int) {
                assert(res@[d - 1] == d);
            }
        }
        assert(res@.to_set() =~= digit_set());
    }
    res
}

/// Membership in a one-longer prefix.
pub proof fn lemma_take_contains(s: Seq<u8>, i: int, k: u8)
    requires
        0 <= i < s.len(),
    ensures
        s.take(i + 1).contains(k) <==> (s.take(i).contains(k) || k == s[i]),
{
    if s.take(i + 1).contains(k) {
        let j = choose|j: int| #![trigger s.take(i + 1)[j]] 0 <= j < i + 1 && s.take(i + 1)[j] == k;
        if j < i {
            assert(s.take(i)[j] == k);
        }
    }
    if s.take(i).contains(k) {
        let j = choose|j: int| #![trigger s.take(i)[j]] 0 <= j < i && s.take(i)[j] == k;
        assert(s.take(i + 1)[j] == k);
    }
    if k == s[i] {
        assert(s.take(i + 1)[i] == k);
    }
}

/// The set of the given values.
#[allow(non_snake_case)]
pub fn BoolHashSetFromIterator(items: &[u8]) -> (res: HashSet<u8>)
    ensures
        res@ == items@.to_set(),
{
    let mut res: HashSet<u8> = HashSet::new();
    let mut i: usize = 0;
    while i < items.len()
        invariant
            i <= items.len(),
            res@ == items@.take(i as int).to_set(),
        decreases items.len() - i,
    {
        res.insert(items[i]);
        proof {
            assert forall|k: u8| items@.take(i + 1).to_set().contains(k)
                <==> items@.take(i as int).to_set().insert(items@[i as int]).contains(k) by {
                lemma_take_contains(items@, i as int, k);
            }
            assert(items@.take(i + 1).to_set() =~= items@.take(i as int).to_set().insert(items@[i as int]));
        }
        i = i + 1;
    }
    proof {
        assert(items@.take(items.len() as int) == items@);
    }
    res
}

/// A map that sends each of the given values to `true`.
#[allow(non_snake_case)]
pub fn BoolHashMapFromIterator(items: &[u8]) -> (res: HashMap<u8, bool>)
    ensures
        res@ == Map::new(|k: u8| items@.contains(k), |k: u8| true),
{
    let mut res: HashMap<u8, bool> = HashMap::new();
    let mut i: usize = 0;
    while i < items.len()
        invariant
            i <= items.len(),
            res@ == Map::new(|k: u8| items@.take(i as int).contains(k), |k: u8| true),
        decreases items.len() - i,
    {
        res.insert(items[i], true);
        proof {
            assert forall|k: u8| items@.take(i + 1).contains(k) <==> (items@.take(
                i as int,
            ).contains(k) || k == items@[i as int]) by {
                lemma_take_contains(items@, i as int, k);
            }
            assert(res@ =~= Map::new(|k: u8| items@.take(i + 1).contains(k), |k: u8| true));
        }
        i = i + 1;
    }
    proof {
        assert(items@.take(items.len() as int) == items@);
    }
    res
}

/// Whether a list of known digits could stand together in one row, column or square: no
/// digit occurs twice. Every value must be a digit: the map of valid digits has no entry
/// for anything else.
pub fn validate(known: &[u8]) -> (res: bool)
    requires
        forall|i: int| 0 <= i < known@.len() ==> is_digit(#[trigger] known@[i] as int),
    ensures
        res == valid_known(known@),
{
    let all = digits();
    let mut valid_nums = BoolHashMapFromIterator(all.as_slice());
    let mut i: usize = 0;
    while i < known.len()
        invariant
            i <= known.len(),
            all@ == seq![1u8, 2u8, 3u8, 4u8, 5u8, 6u8, 7u8, 8u8, 9u8],
            valid_known(known@.take(i as int)),
            valid_nums@.dom() == digit_set(),
            forall|d: u8|
                #![trigger valid_nums@[d]]
                digit_set().contains(d) ==> (valid_nums@[d] <==> !known@.take(i as int).contains(d)),
        decreases known.len() - i,
    {
        let k = known[i];
        let ghost prefix = known@.take(i as int);
        proof {
            assert(known@.take(i + 1) == prefix.push(k));
        }
        match valid_nums.get(&k) {
            Some(v) => {
                if *v {
                    valid_nums.insert(k, false);
                    proof {
                        assert forall|d: u8|
                            #![trigger valid_nums@[d]]
                            digit_set().contains(d) implies (valid_nums@[d]
                                <==> !known@.take(i + 1).contains(d)) by {
                            lemma_take_contains(known@, i as int, d);
                        }
                        assert(valid_nums@.dom() =~= digit_set());
                    }
                } else {
                    proof {
                        let j = choose|j: int| #![trigger prefix[j]] 0 <= j < i && prefix[j] == k;
                        assert(known@[j] == known@[i as int]);
                    }
                    return false;
                }
            },
            None => {
                proof {
                    assert(!is_digit(known@[i as int] as int));
                }
                return false;
            },
        }
        proof {
            assert forall|a: int, b: int| 0 <= a < b < i + 1 implies #[trigger] known@.take(i + 1)[a]
                != #[trigger] known@.take(i + 1)[b] by {
                if b == i {
                    assert(prefix[a] == known@[a]);
                    assert(prefix.contains(known@[a]));
                }
            }
        }
        i = i + 1;
    }
    proof {
        assert(known@.take(known.len() as int) == known@);
    }
    true
}

/// Every set of bytes is finite.
pub proof fn lemma_u8_set_finite(s: Set<u8>)
    ensures
        s.finite(),
{
    <u8 as vstd::set_lib::FiniteFull>::full_properties();
    vstd::set_lib::lemma_set_subset_finite(Set::<u8>::full(), s);
}

/// A set of bytes has at most 256 elements.
pub proof fn lemma_u8_set_len(s: Set<u8>)
    ensures
        s.len() <= 256,
{
    broadcast use vstd::set::group_set_axioms;

    let low = Set::<u8>::range(0u8, 255u8);
    vstd::set_lib::range_set_properties::<u8>(0u8, 255u8);
    let full = low.insert(255u8);
    assert(s.subset_of(full));
    vstd::set_lib::lemma_len_subset(s, full);
}

/// A set with one element, which is `v`, is the singleton of `v`.
pub proof fn lemma_singleton(s: Set<u8>, v: u8)
    requires
        s.len() == 1,
        s.contains(v),
    ensures
        s == set![v],
        s.choose() == v,
{
    lemma_u8_set_finite(s);
    Set::lemma_is_singleton(s);
    assert(s =~= set![v]);
}

/// The nine digits make a set of nine elements.
pub proof fn lemma_digit_set_len()
    ensures
        digit_set().finite(),
        digit_set().len() == 9,
{
    vstd::set_lib::range_set_properties::<u8>(1u8, 10u8);
    assert(digit_set() =~= Set::<u8>::range(1u8, 10u8));
}

/// The value of a cell whose candidates are down to one.
pub open spec fn known_value(s: Set<u8>) -> u8 {
    s.choose()
}

/// What is left of a cell's candidates once the known values of its neighbours are
/// taken away. A cell that is already known keeps its value.
pub open spec fn take_known(s: Set<u8>, known: Seq<u8>) -> Set<u8> {
    if s.len() == 1 {
        s
    } else {
        s.difference(known.to_set())
    }
}

/// What taking the known values away reports: an invalid cell when an unknown cell is left
/// with no candidate or more than nine, otherwise whether the number of candidates changed.
pub open spec fn take_result(s: Set<u8>, known: Seq<u8>) -> Result<bool, SolveError> {
    let t = take_known(s, known);
    if s.len() != 1 && !(1 <= t.len() <= 9) {
        Err(SolveError::InvalidCell)
    } else {
        Ok(t.len() != s.len())
    }
}

/// Taking values away never adds a candidate, and the count changes exactly when the set does.
pub proof fn lemma_take_known_shrinks(s: Set<u8>, known: Seq<u8>)
    ensures
        take_known(s, known).subset_of(s),
        take_known(s, known).len() <= s.len(),
        (take_known(s, known).len() != s.len()) <==> (take_known(s, known) != s),
{
    let t = take_known(s, known);
    lemma_u8_set_finite(s);
    lemma_u8_set_finite(t);
    vstd::set_lib::lemma_len_subset(t, s);
    if t.len() == s.len() {
        vstd::set_lib::lemma_subset_equality(t, s);
    }
}

/// The decimal digit `d` as a character.
pub open spec fn digit_char(d: int) -> char {
    (48 + d) as char
}

/// The decimal text of a byte, without leading zeros.
pub open spec fn decimal_text(v: u8) -> Seq<char> {
    if v < 10 {
        seq![digit_char(v as int)]
    } else if v < 100 {
        seq![digit_char((v / 10) as int), digit_char((v % 10) as int)]
    } else {
        seq![digit_char((v / 100) as int), digit_char(((v / 10) % 10) as int), digit_char((v % 10) as int)]
    }
}

/// How a cell is shown: its value when known, `x` otherwise.
pub open spec fn cell_text(s: Set<u8>) -> Seq<char> {
    if s.len() == 1 {
        decimal_text(known_value(s))
    } else {
        seq!['x']
    }
}

/// One decimal digit as text.
pub fn digit_text(d: u8) -> (res: &'static str)
    requires
        d < 10,
    ensures
        res@ == seq![digit_char(d as int)],
{
    match d {
        0 => {
            proof { reveal_strlit("0"); }
            "0"
        },
        1 => {
            proof { reveal_strlit("1"); }
            "1"
        },
        2 => {
            proof { reveal_strlit("2"); }
            "2"
        },
        3 => {
            proof { reveal_strlit("3"); }
            "3"
        },
        4 => {
            proof { reveal_strlit("4"); }
            "4"
        },
        5 => {
            proof { reveal_strlit("5"); }
            "5"
        },
        6 => {
            proof { reveal_strlit("6"); }
            "6"
        },
        7 => {
            proof { reveal_strlit("7"); }
            "7"
        },
        8 => {
            proof { reveal_strlit("8"); }
            "8"
        },
        _ => {
            proof { reveal_strlit("9"); }
            "9"
        },
    }
}

/// The decimal text of a byte.
pub fn decimal_string(v: u8) -> (res: String)
    ensures
        res@ == decimal_text(v),
{
    let mut res = String::new();
    if v >= 100 {
        res.append(digit_text(v / 100));
    }
    if v >= 10 {
        res.append(digit_text((v / 10) % 10));
    }
    res.append(digit_text(v % 10));
    res
}

/// The candidates below `n`, in increasing order.
pub open spec fn candidates_below(s: Set<u8>, n: nat) -> Seq<u8>
    decreases n,
{
    if n == 0 {
        seq![]
    } else {
        let rest = candidates_below(s, (n - 1) as nat);
        if n <= 256 && s.contains((n - 1) as u8) {
            rest.push((n - 1) as u8)
        } else {
            rest
        }
    }
}

/// All candidates, in increasing order.
pub open spec fn sorted_candidates(s: Set<u8>) -> Seq<u8> {
    candidates_below(s, 256)
}

/// The candidates below `n` are increasing, below `n`, and are exactly the members of `s`
/// below `n`.
pub proof fn lemma_candidates_below(s: Set<u8>, n: nat)
    requires
        n <= 256,
    ensures
        forall|i: int, j: int|
            0 <= i < j < candidates_below(s, n).len() ==> candidates_below(s, n)[i] < candidates_below(
                s,
                n,
            )[j],
        forall|i: int| 0 <= i < candidates_below(s, n).len() ==> candidates_below(s, n)[i] < n,
        forall|e: u8| candidates_below(s, n).contains(e) <==> (e < n && s.contains(e)),
    decreases n,
{
    if n > 0 {
        let m = (n - 1) as nat;
        lemma_candidates_below(s, m);
        let rest = candidates_below(s, m);
        let all = candidates_below(s, n);
        assert forall|e: u8| all.contains(e) <==> (e < n && s.contains(e)) by {
            assert(rest.contains(e) <==> (e < m && s.contains(e)));
            if all.contains(e) {
                let j = choose|j: int| #![trigger all[j]] 0 <= j < all.len() && all[j] == e;
                if j < rest.len() {
                    assert(rest[j] == e);
                }
            }
            if e < m && s.contains(e) {
                let j = choose|j: int| #![trigger rest[j]] 0 <= j < rest.len() && rest[j] == e;
                assert(all[j] == e);
            }
            if e == m && s.contains(e) {
                assert(all[rest.len() as int] == e);
            }
        }
    }
}

/// The sorted candidates hold each candidate once, in increasing order.
pub proof fn lemma_sorted_candidates(s: Set<u8>)
    ensures
        forall|i: int, j: int|
            0 <= i < j < sorted_candidates(s).len() ==> sorted_candidates(s)[i] < sorted_candidates(
                s,
            )[j],
        sorted_candidates(s).to_set() == s,
        sorted_candidates(s).len() == s.len(),
{
    lemma_candidates_below(s, 256);
    let q = sorted_candidates(s);
    assert(q.to_set() =~= s);
    assert(q.no_duplicates()) by {
        assert forall|i: int, j: int| 0 <= i < q.len() && 0 <= j < q.len() && i != j implies q[i]
            != q[j] by {
            if i < j {
                assert(q[i] < q[j]);
            } else {
                assert(q[j] < q[i]);
            }
        }
    }
    q.unique_seq_to_set();
}

/// A cell of the grid: the values it may still take, and its column `m_x` and row `m_y`.
#[allow(non_camel_case_types)]
pub struct cell {
    pub m_possible: HashSet<u8>,
    pub m_x: u8,
    pub m_y: u8,
}

impl cell {
    /// The values the cell may still take.
    pub open spec fn candidates(&self) -> Set<u8> {
        self.m_possible@
    }

    /// A cell is known when one candidate is left.
    pub open spec fn is_known(&self) -> bool {
        self.m_possible@.len() == 1
    }

    /// A cell is valid when it has between one and nine candidates.
    pub open spec fn is_valid(&self) -> bool {
        1 <= self.m_possible@.len() <= 9
    }

    /// A fresh cell at column `x` and row `y`, which may take any digit.
    pub fn new(x: u8, y: u8) -> (c: cell)
        ensures
            c.candidates() == digit_set(),
            c.m_x == x,
            c.m_y == y,
    {
        let all = digits();
        cell { m_possible: BoolHashSetFromIterator(all.as_slice()), m_x: x, m_y: y }
    }

    /// Whether the cell has between one and nine candidates.
    pub fn validate(&self) -> (res: bool)
        ensures
            res == self.is_valid(),
    {
        if self.m_possible.len() < 1 {
            return false;
        }
        if self.m_possible.len() > 9 {
            return false;
        }
        true
    }

    /// Makes `value` the only candidate.
    #[allow(non_snake_case)]
    pub fn SetKnownTo(&mut self, value: u8)
        ensures
            final(self).candidates() == set![value],
            final(self).m_x == old(self).m_x,
            final(self).m_y == old(self).m_y,
    {
        let one = [value];
        self.m_possible = BoolHashSetFromIterator(one.as_slice());
        proof {
            assert(one@ == seq![value]);
            assert(seq![value].to_set() =~= set![value]) by {
                assert(seq![value][0] == value);
            }
        }
    }

    /// Takes the known values of the cell's neighbours away from its candidates, unless the
    /// cell is known already. Fails when an unknown cell is left with no candidate or with
    /// more than nine; otherwise reports whether any candidate was taken.
    #[allow(non_snake_case)]
    pub fn TakeKnownFromPossible(&mut self, known: &[u8]) -> (res: Result<bool, SolveError>)
        ensures
            final(self).candidates() == take_known(old(self).candidates(), known@),
            res == take_result(old(self).candidates(), known@),
            res matches Ok(changed) ==> (changed <==> final(self).candidates() != old(self).candidates()),
            final(self).m_x == old(self).m_x,
            final(self).m_y == old(self).m_y,
    {
        let possibles = self.m_possible.len();
        proof {
            lemma_take_known_shrinks(old(self).candidates(), known@);
        }
        if !self.IsKnown() {
            let mut i: usize = 0;
            while i < known.len()
                invariant
                    i <= known.len(),
                    self.m_possible@ == old(self).m_possible@.difference(known@.take(i as int).to_set()),
                    self.m_x == old(self).m_x,
                    self.m_y == old(self).m_y,
                decreases known.len() - i,
            {
                self.m_possible.remove(&known[i]);
                proof {
                    assert forall|k: u8| known@.take(i + 1).to_set().contains(k)
                        <==> (known@.take(i as int).to_set().contains(k) || k == known@[i as int]) by {
                        lemma_take_contains(known@, i as int, k);
                    }
                    assert(self.m_possible@ =~= old(self).m_possible@.difference(
                        known@.take(i + 1).to_set(),
                    ));
                }
                i = i + 1;
            }
            proof {
                assert(known@.take(known.len() as int) == known@);
            }
            if !self.validate() {
                return Err(SolveError::InvalidCell);
            }
        }
        Ok(possibles != self.m_possible.len())
    }

    /// Whether exactly one candidate is left.
    #[allow(non_snake_case)]
    pub fn IsKnown(&self) -> (res: bool)
        ensures
            res == self.is_known(),
    {
        self.m_possible.len() == 1
    }

    /// The cell's value, once it is known.
    #[allow(non_snake_case)]
    pub fn Known(&self) -> (res: Result<u8, SolveError>)
        ensures
            res is Ok <==> self.is_known(),
            res matches Ok(v) ==> self.candidates() == set![v] && v == known_value(self.candidates()),
            res matches Err(e) ==> e == SolveError::ValueNotKnown,
    {
        if self.m_possible.len() != 1 {
            return Err(SolveError::ValueNotKnown);
        }
        let mut d: u8 = 0;
        while !self.m_possible.contains(&d)
            invariant
                self.m_possible@.len() == 1,
                forall|e: u8| e < d ==> !self.m_possible@.contains(e),
            decreases 255 - d,
        {
            proof {
                if d == 255 {
                    lemma_u8_set_finite(self.m_possible@);
                    let e = self.m_possible@.choose();
                    assert(self.m_possible@.contains(e));
                }
            }
            d = d + 1;
        }
        proof {
            lemma_singleton(self.m_possible@, d);
        }
        Ok(d)
    }

    /// The candidates in increasing order.
    #[allow(non_snake_case)]
    pub fn Possibles(&self) -> (res: Vec<u8>)
        ensures
            res@ == sorted_candidates(self.candidates()),
    {
        let mut res: Vec<u8> = Vec::new();
        let mut d: u16 = 0;
        while d < 256
            invariant
                d <= 256,
                res@ == candidates_below(self.m_possible@, d as nat),
            decreases 256 - d,
        {
            let e = d as u8;
            if self.m_possible.contains(&e) {
                res.push(e);
            }
            d = d + 1;
        }
        res
    }

    /// The cell as text: its value when known, `x` otherwise.
    pub fn to_string(&self) -> (res: String)
        ensures
            res@ == cell_text(self.candidates()),
    {
        match self.Known() {
            Ok(v) => decimal_string(v),
            Err(_) => {
                let mut res = String::new();
                proof { reveal_strlit("x"); }
                res.append("x");
                res
            },
        }
    }
}

} // verus!
