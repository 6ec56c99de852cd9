//! Putting the page images of a rendered document in order.
//!
//! A renderer names its images `prefix-1.png`, `prefix-2.png` and so on. For callers that get
//! such names in no particular order, this module reads the page number out of a name and
//! orders names by it. The recogniser itself never looks at names: it takes pages in the order
//! in which they are handed to it.

use crate::utils::chars_of;
use vstd::prelude::*;

verus! {

/// Index after the last hyphen among the first `upto` characters; 0 when there is none.
pub open spec fn after_last_hyphen(s: Seq<char>, upto: int) -> int
    decreases upto,
{
    if 0 < upto <= s.len() && s[upto - 1] != '-' {
        after_last_hyphen(s, upto - 1)
    } else if upto <= 0 {
        0
    } else {
        upto
    }
}

/// Whether the first `len` characters of `s` end with `.png`.
pub open spec fn ends_with_png(s: Seq<char>, len: int) -> bool {
    &&& 4 <= len <= s.len()
    &&& s[len - 4] == '.'
    &&& s[len - 3] == 'p'
    &&& s[len - 2] == 'n'
    &&& s[len - 1] == 'g'
}

/// Length of what is left of the first `len` characters of `s` once every `.png` at their end
/// is taken away.
pub open spec fn len_without_png(s: Seq<char>, len: int) -> int
    decreases len,
{
    if ends_with_png(s, len) {
        len_without_png(s, len - 4)
    } else {
        len
    }
}

/// Whether `c` is a decimal digit.
pub open spec fn is_digit(c: char) -> bool {
    '0' <= c <= '9'
}

/// The number that the digits `s` write in base ten.
pub open spec fn digits_value(s: Seq<char>) -> nat
    decreases s.len(),
{
    if s.len() == 0 {
        0
    } else {
        10 * digits_value(s.drop_last()) + (s.last() as u32 - '0' as u32) as nat
    }
}

/// Whether `s` holds decimal digits only.
pub open spec fn all_digits(s: Seq<char>) -> bool {
    forall|i: int| 0 <= i < s.len() ==> is_digit(#[trigger] s[i])
}

/// The number that the digits write, if there is at least one of them, nothing but digits, and
/// the number fits in 32 bits.
pub open spec fn number_of_digits(digits: Seq<char>) -> Option<u32> {
    if digits.len() > 0 && all_digits(digits) && digits_value(digits) <= u32::MAX {
        Some(digits_value(digits) as u32)
    } else {
        None
    }
}

/// The number that `s` writes, if it writes one that fits in 32 bits: an optional plus sign
/// and then digits, at least one, and nothing else.
pub open spec fn parsed_number(s: Seq<char>) -> Option<u32> {
    if s.len() > 0 && s[0] == '+' {
        number_of_digits(s.drop_first())
    } else {
        number_of_digits(s)
    }
}

/// The part of a file name that writes its page number: what follows the last hyphen, without
/// any `.png` at its end.
pub open spec fn number_part(name: Seq<char>) -> Seq<char> {
    let from = after_last_hyphen(name, name.len() as int);
    let to = len_without_png(name, name.len() as int);
    if from <= to {
        name.subrange(from, to)
    } else {
        Seq::empty()
    }
}

/// The page number that a file name carries; 0 when it carries none.
pub open spec fn page_number_of(name: Seq<char>) -> u32 {
    match parsed_number(number_part(name)) {
        Some(n) => n,
        None => 0,
    }
}

/// Whether `order` lists the positions of `numbers` by rising number, positions with the same
/// number in their own order: every position once, and none other.
pub open spec fn is_page_order(numbers: Seq<u32>, order: Seq<usize>) -> bool {
    &&& order.len() == numbers.len()
    &&& forall|i: int| 0 <= i < order.len() ==> (#[trigger] order[i]) < numbers.len()
    &&& forall|v: int| 0 <= v < numbers.len() ==> #[trigger] occurs_in(order, v)
    &&& forall|i: int, j: int|
        0 <= i < j < order.len() ==> comes_before(numbers, #[trigger] order[i], #[trigger] order[j])
}

/// Whether position `v` is listed in `order`.
pub open spec fn occurs_in(order: Seq<usize>, v: int) -> bool {
    exists|i: int| 0 <= i < order.len() && #[trigger] order[i] == v
}

/// Whether position `p` comes before position `q`: its number is smaller, or the numbers are
/// the same and `p` is the earlier position.
pub open spec fn comes_before(numbers: Seq<u32>, p: usize, q: usize) -> bool {
    numbers[p as int] < numbers[q as int] || (numbers[p as int] == numbers[q as int] && p < q)
}

/// The value of digits never falls when more digits follow.
pub proof fn lemma_digits_value_grows(s: Seq<char>, k: int)
    requires
        0 <= k <= s.len(),
        all_digits(s),
    ensures
        digits_value(s.take(k)) <= digits_value(s),
    decreases s.len() - k,
{
    if k < s.len() {
        lemma_digits_value_grows(s, k + 1);
        assert(s.take(k + 1).drop_last() =~= s.take(k));
        assert(is_digit(s.take(k + 1).last()));
    } else {
        assert(s.take(k) =~= s);
    }
}

/// The number that the digits `from` (included) to `to` (excluded) of `chars` write.
pub fn parse_digits(chars: &Vec<char>, from: usize, to: usize) -> (number: Option<u32>)
    requires
        from <= to <= chars@.len(),
    ensures
        number == number_of_digits(chars@.subrange(from as int, to as int)),
{
    let ghost digits = chars@.subrange(from as int, to as int);
    if from == to {
        return None;
    }
    let mut value: u64 = 0;
    let mut i: usize = from;
    while i < to
        invariant
            from <= i <= to <= chars@.len(),
            from < to,
            digits == chars@.subrange(from as int, to as int),
            all_digits(digits.take(i - from)),
            value == digits_value(digits.take(i - from)),
            value <= u32::MAX,
        decreases to - i,
    {
        let c = chars[i];
        if !('0' <= c && c <= '9') {
            proof {
                assert(!is_digit(digits[i - from]));
            }
            return None;
        }
        let digit: u64 = (c as u32 - '0' as u32) as u64;
        proof {
            let longer = digits.take(i - from + 1);
            assert(longer.drop_last() =~= digits.take(i - from));
            assert(longer.last() == c);
            assert forall|k: int| 0 <= k < longer.len() implies is_digit(#[trigger] longer[k]) by {
                if k < i - from {
                    assert(longer[k] == digits.take(i - from)[k]);
                }
            }
        }
        let next: u64 = 10 * value + digit;
        if next > u32::MAX as u64 {
            proof {
                // the digits that follow can only make the number greater
                if all_digits(digits) {
                    lemma_digits_value_grows(digits, i - from + 1);
                }
            }
            return None;
        }
        value = next;
        i = i + 1;
    }
    proof {
        assert(digits.take(to - from) =~= digits);
    }
    Some(value as u32)
}

/// The number that the characters `from` (included) to `to` (excluded) of `chars` write.
pub fn parse_number(chars: &Vec<char>, from: usize, to: usize) -> (number: Option<u32>)
    requires
        from <= to <= chars@.len(),
    ensures
        number == parsed_number(chars@.subrange(from as int, to as int)),
{
    let ghost s = chars@.subrange(from as int, to as int);
    if from < to && chars[from] == '+' {
        assert(s[0] == '+');
        assert(s.drop_first() =~= chars@.subrange(from + 1, to as int));
        parse_digits(chars, from + 1, to)
    } else {
        parse_digits(chars, from, to)
    }
}

/// The page number that a file name carries: the number written after its last hyphen, any
/// `.png` at the end of the name left aside; 0 when no number is written there.
pub fn page_number(name: &str) -> (number: u32)
    ensures
        number == page_number_of(name@),
{
    let chars = chars_of(name);
    let n: usize = chars.len();
    let mut from: usize = n;
    while from > 0 && chars[from - 1] != '-'
        invariant
            n == chars@.len(),
            from <= n,
            after_last_hyphen(chars@, n as int) == after_last_hyphen(chars@, from as int),
        decreases from,
    {
        from = from - 1;
    }
    let mut to: usize = n;
    while to >= 4 && chars[to - 4] == '.' && chars[to - 3] == 'p' && chars[to - 2] == 'n' && chars[to
        - 1] == 'g'
        invariant
            n == chars@.len(),
            to <= n,
            len_without_png(chars@, n as int) == len_without_png(chars@, to as int),
        decreases to,
    {
        to = to - 4;
    }
    if from > to {
        return 0;
    }
    match parse_number(&chars, from, to) {
        Some(number) => number,
        None => 0,
    }
}

/// The positions of `numbers` by rising number; positions with the same number stay in their
/// own order.
pub fn order_by_number(numbers: &Vec<u32>) -> (order: Vec<usize>)
    ensures
        is_page_order(numbers@, order@),
{
    let n: usize = numbers.len();
    let mut order: Vec<usize> = Vec::new();
    let mut k: usize = 0;
    while k < n
        invariant
            n == numbers@.len(),
            k <= n,
            order@.len() == k,
            forall|i: int| 0 <= i < order@.len() ==> (#[trigger] order@[i]) < k,
            forall|v: int| 0 <= v < k ==> #[trigger] occurs_in(order@, v),
            forall|i: int, j: int|
                0 <= i < j < order@.len() ==> comes_before(
                    numbers@,
                    #[trigger] order@[i],
                    #[trigger] order@[j],
                ),
        decreases n - k,
    {
        // the place of position k: after everything with a number that is not greater
        let mut p: usize = order.len();
        while p > 0 && numbers[order[p - 1]] > numbers[k]
            invariant
                n == numbers@.len(),
                k < n,
                order@.len() == k,
                p <= order@.len(),
                forall|i: int| 0 <= i < order@.len() ==> (#[trigger] order@[i]) < k,
                forall|i: int| p <= i < order@.len() ==> numbers@[(#[trigger] order@[i]) as int] > numbers@[k as int],
            decreases p,
        {
            p = p - 1;
        }
        let ghost before = order@;
        order.insert(p, k);
        proof {
            assert(order@ == before.insert(p as int, k));
            assert forall|v: int| 0 <= v < k + 1 implies #[trigger] occurs_in(order@, v) by {
                if v == k {
                    assert(order@[p as int] == k);
                } else {
                    assert(occurs_in(before, v));
                    let i = choose|i: int| 0 <= i < before.len() && #[trigger] before[i] == v;
                    if i < p {
                        assert(order@[i] == v);
                    } else {
                        assert(order@[i + 1] == v);
                    }
                }
            }
            assert forall|i: int, j: int| 0 <= i < j < order@.len() implies comes_before(
                numbers@,
                #[trigger] order@[i],
                #[trigger] order@[j],
            ) by {
                let bi = if i < p {
                    i
                } else {
                    i - 1
                };
                let bj = if j < p {
                    j
                } else {
                    j - 1
                };
                if i != p {
                    assert(order@[i] == before[bi]);
                }
                if j != p {
                    assert(order@[j] == before[bj]);
                }
                if i == p {
                    // what follows the new position has a greater number
                    assert(numbers@[before[bj] as int] > numbers@[k as int]);
                } else if j == p {
                    // what precedes it has a number that is not greater, and came earlier
                    if p > 0 {
                        assert(numbers@[before[p - 1] as int] <= numbers@[k as int]);
                        if bi < p - 1 {
                            assert(comes_before(numbers@, before[bi], before[p - 1]));
                        }
                    }
                } else {
                    assert(comes_before(numbers@, before[bi], before[bj]));
                }
            }
        }
        k = k + 1;
    }
    order
}

/// The positions of the file names by rising page number; names with the same page number stay
/// in their own order.
pub fn page_order(names: &Vec<String>) -> (order: Vec<usize>)
    ensures
        is_page_order(Seq::new(names@.len(), |i: int| page_number_of(names@[i]@)), order@),
{
    let mut numbers: Vec<u32> = Vec::new();
    let mut i: usize = 0;
    while i < names.len()
        invariant
            i <= names@.len(),
            numbers@.len() == i,
            forall|k: int| 0 <= k < i ==> #[trigger] numbers@[k] == page_number_of(names@[k]@),
        decreases names@.len() - i,
    {
        numbers.push(page_number(names[i].as_str()));
        i = i + 1;
    }
    assert(numbers@ =~= Seq::new(names@.len(), |i: int| page_number_of(names@[i]@)));
    order_by_number(&numbers)
}

} // verus!
