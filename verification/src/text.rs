//! Characters, their order, and numbers written in decimal.

use crate::prelude::names;
use vstd::prelude::*;

verus! {

/// How one value stands to another.
#[derive(Clone, Copy, Debug, PartialEq, Eq, Structural)]
pub enum Order {
    Less,
    Equal,
    Greater,
}

/// Whether `a` comes before `b` in lexicographic order of the code points.
pub open spec fn text_before(a: Seq<char>, b: Seq<char>) -> bool
    decreases a.len(),
{
    if b.len() == 0 {
        false
    } else if a.len() == 0 {
        true
    } else if a.first() == b.first() {
        text_before(a.drop_first(), b.drop_first())
    } else {
        (a.first() as int) < (b.first() as int)
    }
}

/// No text comes before itself.
pub proof fn text_before_is_irreflexive(a: Seq<char>)
    ensures
        !text_before(a, a),
    decreases a.len(),
{
    if a.len() > 0 {
        text_before_is_irreflexive(a.drop_first());
    }
}

/// A text that comes before another comes before all that the other comes before.
pub proof fn text_before_is_transitive(a: Seq<char>, b: Seq<char>, c: Seq<char>)
    requires
        text_before(a, b),
        text_before(b, c),
    ensures
        text_before(a, c),
    decreases a.len(),
{
    if a.len() > 0 && a.first() == b.first() && b.first() == c.first() {
        text_before_is_transitive(a.drop_first(), b.drop_first(), c.drop_first());
    }
}

/// Of two different texts one comes before the other.
pub proof fn text_before_is_total(a: Seq<char>, b: Seq<char>)
    requires
        a != b,
    ensures
        text_before(a, b) || text_before(b, a),
    decreases a.len(),
{
    if a.len() > 0 && b.len() > 0 {
        if a.first() == b.first() {
            if a.drop_first() == b.drop_first() {
                assert(a =~= seq![a.first()] + a.drop_first());
                assert(b =~= seq![b.first()] + b.drop_first());
            }
            text_before_is_total(a.drop_first(), b.drop_first());
        }
    } else {
        assert(a.len() == 0 && b.len() == 0 ==> a =~= b);
    }
}

/// The characters of a text.
pub fn chars_of(text: &str) -> (chars: Vec<char>)
    ensures
        chars@ == text@,
{
    let mut chars: Vec<char> = Vec::new();
    for c in it: text.chars()
        invariant
            it.seq() == text@,
            chars@ == it.seq().take(it.index() as int),
    {
        proof {
            assert(it.seq().take(it.index() as int).push(c) =~= it.seq().take(it.index() + 1));
        }
        chars.push(c);
    }
    proof {
        assert(text@.take(text@.len() as int) =~= text@);
    }
    chars
}

/// The lexicographic order of two texts.
pub fn text_order(a: &str, b: &str) -> (order: Order)
    ensures
        order == (if a@ == b@ {
            Order::Equal
        } else if text_before(a@, b@) {
            Order::Less
        } else {
            Order::Greater
        }),
{
    let left = chars_of(a);
    let right = chars_of(b);
    let mut i: usize = 0;
    proof {
        assert(a@.skip(0) =~= a@);
        assert(b@.skip(0) =~= b@);
    }
    while i < left.len() && i < right.len()
        invariant
            left@ == a@,
            right@ == b@,
            i <= left.len(),
            i <= right.len(),
            a@.take(i as int) == b@.take(i as int),
            text_before(a@, b@) == text_before(a@.skip(i as int), b@.skip(i as int)),
        decreases left.len() - i,
    {
        let l: char = left[i];
        let r: char = right[i];
        proof {
            assert(a@.skip(i as int).drop_first() =~= a@.skip(i + 1));
            assert(b@.skip(i as int).drop_first() =~= b@.skip(i + 1));
            assert(a@.skip(i as int).first() == l);
            assert(b@.skip(i as int).first() == r);
        }
        if l < r {
            assert(a@[i as int] != b@[i as int]);
            return Order::Less;
        }
        if l > r {
            assert(a@[i as int] != b@[i as int]);
            return Order::Greater;
        }
        proof {
            assert(a@.take(i + 1) =~= a@.take(i as int).push(l));
            assert(b@.take(i + 1) =~= b@.take(i as int).push(r));
        }
        i += 1;
    }
    if i < right.len() {
        Order::Less
    } else if i < left.len() {
        Order::Greater
    } else {
        proof {
            assert(a@.take(i as int) =~= a@);
            assert(b@.take(i as int) =~= b@);
        }
        Order::Equal
    }
}

/// Whether the path `a` comes before the path `b`: paths are ordered by their first different
/// segment, and a path comes before the paths below it.
pub open spec fn path_before(a: Seq<Seq<char>>, b: Seq<Seq<char>>) -> bool
    decreases a.len(),
{
    if b.len() == 0 {
        false
    } else if a.len() == 0 {
        true
    } else if a.first() == b.first() {
        path_before(a.drop_first(), b.drop_first())
    } else {
        text_before(a.first(), b.first())
    }
}

/// No path comes before itself.
pub proof fn path_before_is_irreflexive(a: Seq<Seq<char>>)
    ensures
        !path_before(a, a),
    decreases a.len(),
{
    if a.len() > 0 {
        path_before_is_irreflexive(a.drop_first());
    }
}

/// A path that comes before another comes before all that the other comes before.
pub proof fn path_before_is_transitive(
    a: Seq<Seq<char>>,
    b: Seq<Seq<char>>,
    c: Seq<Seq<char>>,
)
    requires
        path_before(a, b),
        path_before(b, c),
    ensures
        path_before(a, c),
    decreases a.len(),
{
    if a.len() > 0 {
        if a.first() == b.first() && b.first() == c.first() {
            path_before_is_transitive(a.drop_first(), b.drop_first(), c.drop_first());
        } else if a.first() != b.first() && b.first() != c.first() {
            text_before_is_transitive(a.first(), b.first(), c.first());
            if a.first() == c.first() {
                text_before_is_irreflexive(a.first());
            }
        }
    }
}

/// Of two different paths one comes before the other.
pub proof fn path_before_is_total(a: Seq<Seq<char>>, b: Seq<Seq<char>>)
    requires
        a != b,
    ensures
        path_before(a, b) || path_before(b, a),
    decreases a.len(),
{
    if a.len() > 0 && b.len() > 0 {
        if a.first() == b.first() {
            if a.drop_first() == b.drop_first() {
                assert(a =~= seq![a.first()] + a.drop_first());
                assert(b =~= seq![b.first()] + b.drop_first());
            }
            path_before_is_total(a.drop_first(), b.drop_first());
        } else {
            text_before_is_total(a.first(), b.first());
        }
    } else {
        assert(a.len() == 0 && b.len() == 0 ==> a =~= b);
    }
}

/// The order of two paths.
pub fn path_order(a: &[String], b: &[String]) -> (order: Order)
    ensures
        order == (if names(a@) == names(b@) {
            Order::Equal
        } else if path_before(names(a@), names(b@)) {
            Order::Less
        } else {
            Order::Greater
        }),
{
    let ghost left = names(a@);
    let ghost right = names(b@);
    let mut i: usize = 0;
    proof {
        assert(left.skip(0) =~= left);
        assert(right.skip(0) =~= right);
    }
    while i < a.len() && i < b.len()
        invariant
            left == names(a@),
            right == names(b@),
            i <= a@.len(),
            i <= b@.len(),
            left.take(i as int) == right.take(i as int),
            path_before(left, right) == path_before(left.skip(i as int), right.skip(i as int)),
        decreases a@.len() - i,
    {
        proof {
            assert(left.skip(i as int).drop_first() =~= left.skip(i + 1));
            assert(right.skip(i as int).drop_first() =~= right.skip(i + 1));
            assert(left.skip(i as int).first() == a@[i as int]@);
            assert(right.skip(i as int).first() == b@[i as int]@);
        }
        match text_order(a[i].as_str(), b[i].as_str()) {
            Order::Less => {
                assert(left[i as int] != right[i as int]);
                return Order::Less;
            },
            Order::Greater => {
                assert(left[i as int] != right[i as int]);
                return Order::Greater;
            },
            Order::Equal => {},
        }
        proof {
            assert(left.take(i + 1) =~= left.take(i as int).push(left[i as int]));
            assert(right.take(i + 1) =~= right.take(i as int).push(right[i as int]));
        }
        i += 1;
    }
    if i < b.len() {
        Order::Less
    } else if i < a.len() {
        Order::Greater
    } else {
        proof {
            assert(left.take(i as int) =~= left);
            assert(right.take(i as int) =~= right);
        }
        Order::Equal
    }
}

/// The decimal digit for a number below ten.
pub open spec fn digit(n: int) -> char {
    ('0' as int + n) as char
}

/// Whether a character is a decimal digit.
pub open spec fn is_digit(c: char) -> bool {
    '0' <= c <= '9'
}

/// A number in decimal, without leading zeros.
pub open spec fn decimal(n: nat) -> Seq<char>
    decreases n,
{
    if n < 10 {
        seq![digit(n as int)]
    } else {
        decimal(n / 10).push(digit((n % 10) as int))
    }
}

/// The number that a sequence of decimal digits denotes.
pub open spec fn digits_value(digits: Seq<char>) -> int
    decreases digits.len(),
{
    if digits.len() == 0 {
        0
    } else {
        digits_value(digits.drop_last()) * 10 + (digits.last() as int - '0' as int)
    }
}

/// The text without a leading plus sign.
pub open spec fn unsigned(text: Seq<char>) -> Seq<char> {
    if text.len() > 0 && text.first() == '+' {
        text.drop_first()
    } else {
        text
    }
}

/// The 64-bit number that a text denotes: one decimal digit or more, with a plus sign in front
/// or without.
pub open spec fn number_of(text: Seq<char>) -> Option<u64> {
    let digits = unsigned(text);
    if digits.len() > 0 && (forall|i: int| 0 <= i < digits.len() ==> is_digit(#[trigger] digits[i]))
        && digits_value(digits) <= u64::MAX {
        Some(digits_value(digits) as u64)
    } else {
        None
    }
}

proof fn lemma_decimal(n: nat)
    ensures
        decimal(n).len() > 0,
        forall|i: int| 0 <= i < decimal(n).len() ==> is_digit(#[trigger] decimal(n)[i]),
        digits_value(decimal(n)) == n,
    decreases n,
{
    if n < 10 {
        let d = decimal(n);
        assert(d.drop_last() =~= Seq::<char>::empty());
        assert(digits_value(d.drop_last()) == 0);
        assert(d.last() == digit(n as int));
    } else {
        let d = decimal(n);
        lemma_decimal(n / 10);
        assert(d.drop_last() =~= decimal(n / 10));
        assert(d.last() == digit((n % 10) as int));
    }
}

/// Reading a number that was written in decimal gives the number back.
pub proof fn reading_undoes_writing(n: u64)
    ensures
        number_of(decimal(n as nat)) == Some(n),
{
    lemma_decimal(n as nat);
    assert(is_digit(decimal(n as nat)[0]));
}

/// Writes a number in decimal.
pub fn write_number(n: u64) -> (text: String)
    ensures
        text@ == decimal(n as nat),
    decreases n,
{
    proof {
        reveal_strlit("0");
        reveal_strlit("1");
        reveal_strlit("2");
        reveal_strlit("3");
        reveal_strlit("4");
        reveal_strlit("5");
        reveal_strlit("6");
        reveal_strlit("7");
        reveal_strlit("8");
        reveal_strlit("9");
    }
    let low: u64 = n % 10;
    let last: &str = match low {
        0 => "0",
        1 => "1",
        2 => "2",
        3 => "3",
        4 => "4",
        5 => "5",
        6 => "6",
        7 => "7",
        8 => "8",
        _ => "9",
    };
    proof {
        assert(last@ =~= seq![digit(low as int)]);
    }
    if n < 10 {
        last.to_owned()
    } else {
        let mut text = write_number(n / 10);
        text.append(last);
        proof {
            assert(text@ =~= decimal(n as nat));
        }
        text
    }
}

proof fn lemma_digits_value_grows(digits: Seq<char>, n: int)
    requires
        0 <= n <= digits.len(),
        forall|i: int| 0 <= i < digits.len() ==> is_digit(#[trigger] digits[i]),
    ensures
        0 <= digits_value(digits.take(n)) <= digits_value(digits),
    decreases digits.len(),
{
    if n < digits.len() {
        let most = digits.drop_last();
        assert forall|i: int| 0 <= i < most.len() implies is_digit(#[trigger] most[i]) by {
            assert(most[i] == digits[i]);
        }
        lemma_digits_value_grows(most, n);
        assert(most.take(n) =~= digits.take(n));
        assert(is_digit(digits[digits.len() - 1]));
    } else {
        assert(digits.take(n) =~= digits);
        if digits.len() > 0 {
            let most = digits.drop_last();
            assert forall|i: int| 0 <= i < most.len() implies is_digit(#[trigger] most[i]) by {
                assert(most[i] == digits[i]);
            }
            lemma_digits_value_grows(most, 0);
            assert(is_digit(digits[digits.len() - 1]));
        }
    }
}

/// Reads a 64-bit number.
pub fn read_number(text: &str) -> (number: Option<u64>)
    ensures
        number == number_of(text@),
{
    let chars = chars_of(text);
    let start: usize = if chars.len() > 0 && chars[0] == '+' { 1 } else { 0 };
    let ghost digits = unsigned(text@);
    proof {
        assert(digits =~= text@.skip(start as int));
    }
    if start == chars.len() {
        return None;
    }
    let mut value: u64 = 0;
    let mut i: usize = start;
    proof {
        assert(digits.take(0) =~= Seq::<char>::empty());
    }
    while i < chars.len()
        invariant
            chars@ == text@,
            digits == unsigned(text@),
            digits == text@.skip(start as int),
            start <= i <= chars.len(),
            start < chars.len(),
            forall|j: int| 0 <= j < i - start ==> is_digit(#[trigger] digits[j]),
            value == digits_value(digits.take(i - start)),
        decreases chars.len() - i,
    {
        let c: char = chars[i];
        let ghost k = i - start;
        proof {
            assert(digits[k] == c);
        }
        if c < '0' || c > '9' {
            return None;
        }
        let d: u64 = (c as u32 - '0' as u32) as u64;
        proof {
            assert(digits.take(k + 1).drop_last() =~= digits.take(k));
            assert(digits.take(k + 1).last() == c);
            assert(digits_value(digits.take(k + 1)) == value * 10 + d);
            if forall|j: int| 0 <= j < digits.len() ==> is_digit(#[trigger] digits[j]) {
                lemma_digits_value_grows(digits, k + 1);
            }
        }
        match value.checked_mul(10) {
            None => {
                return None;
            },
            Some(shifted) => match shifted.checked_add(d) {
                None => {
                    return None;
                },
                Some(next) => {
                    value = next;
                },
            },
        }
        i += 1;
    }
    proof {
        assert(digits.take(i - start) =~= digits);
    }
    Some(value)
}

/// The order of texts is the one of a dictionary: a text comes before another exactly where it is a
/// proper beginning of it, or where at the first place at which they differ it has the character
/// with the lower code point.
pub proof fn texts_are_ordered_by_their_first_difference(a: Seq<char>, b: Seq<char>)
    ensures
        text_before(a, b) <==> (a.len() < b.len() && b.take(a.len() as int) == a) || exists|i: int|
            {
                &&& 0 <= i < a.len()
                &&& i < b.len()
                &&& #[trigger] a[i] < b[i]
                &&& a.take(i) == b.take(i)
            },
    decreases a.len(),
{
    if a.len() > 0 && b.len() > 0 {
        let x = a.drop_first();
        let y = b.drop_first();
        texts_are_ordered_by_their_first_difference(x, y);
        if a.first() == b.first() {
            if y.take(x.len() as int) == x && x.len() < y.len() {
                assert(b.take(a.len() as int) =~= seq![b.first()] + y.take(x.len() as int));
                assert(a =~= seq![a.first()] + x);
            }
            if a.len() < b.len() && b.take(a.len() as int) == a {
                assert(y.take(x.len() as int) =~= b.take(a.len() as int).drop_first());
            }
            if exists|i: int|
                {
                    &&& 0 <= i < x.len()
                    &&& i < y.len()
                    &&& #[trigger] x[i] < y[i]
                    &&& x.take(i) == y.take(i)
                } {
                let i = choose|i: int|
                    {
                        &&& 0 <= i < x.len()
                        &&& i < y.len()
                        &&& #[trigger] x[i] < y[i]
                        &&& x.take(i) == y.take(i)
                    };
                assert(a[i + 1] == x[i] && b[i + 1] == y[i]);
                assert(a.take(i + 1) =~= seq![a.first()] + x.take(i));
                assert(b.take(i + 1) =~= seq![b.first()] + y.take(i));
            }
            if exists|i: int|
                {
                    &&& 0 <= i < a.len()
                    &&& i < b.len()
                    &&& #[trigger] a[i] < b[i]
                    &&& a.take(i) == b.take(i)
                } {
                let i = choose|i: int|
                    {
                        &&& 0 <= i < a.len()
                        &&& i < b.len()
                        &&& #[trigger] a[i] < b[i]
                        &&& a.take(i) == b.take(i)
                    };
                assert(x[i - 1] == a[i] && y[i - 1] == b[i]);
                assert(x.take(i - 1) =~= a.take(i).drop_first());
                assert(y.take(i - 1) =~= b.take(i).drop_first());
            }
        } else {
            if a.len() < b.len() && b.take(a.len() as int) == a {
                assert(b.take(a.len() as int)[0] == b[0]);
            }
            assert(a.take(0) =~= b.take(0));
            assert(text_before(a, b) == (a[0] < b[0]));
            assert forall|i: int|
                0 <= i < a.len() && i < b.len() && #[trigger] a[i] <= b[i]
                    && a.take(i) == b.take(i) implies i == 0 by {
                if i > 0 {
                    assert(a.take(i)[0] == b.take(i)[0]);
                }
            }
        }
    } else if a.len() == 0 && b.len() > 0 {
        assert(b.take(0) =~= a);
    }
}

/// The order of paths is the one of their segments: a path comes before another exactly where it
/// leads to it, or where at the first segment in which they differ it has the one that comes first.
pub proof fn paths_are_ordered_by_their_first_difference(a: Seq<Seq<char>>, b: Seq<Seq<char>>)
    ensures
        path_before(a, b) <==> (a.len() < b.len() && b.take(a.len() as int) == a) || exists|i: int|
            {
                &&& 0 <= i < a.len()
                &&& i < b.len()
                &&& #[trigger] a[i] != b[i]
                &&& text_before(a[i], b[i])
                &&& a.take(i) == b.take(i)
            },
    decreases a.len(),
{
    if a.len() > 0 && b.len() > 0 {
        let x = a.drop_first();
        let y = b.drop_first();
        paths_are_ordered_by_their_first_difference(x, y);
        if a.first() == b.first() {
            if y.take(x.len() as int) == x && x.len() < y.len() {
                assert(b.take(a.len() as int) =~= seq![b.first()] + y.take(x.len() as int));
                assert(a =~= seq![a.first()] + x);
            }
            if a.len() < b.len() && b.take(a.len() as int) == a {
                assert(y.take(x.len() as int) =~= b.take(a.len() as int).drop_first());
            }
            if exists|i: int|
                {
                    &&& 0 <= i < x.len()
                    &&& i < y.len()
                    &&& #[trigger] x[i] != y[i]
                    &&& text_before(x[i], y[i])
                    &&& x.take(i) == y.take(i)
                } {
                let i = choose|i: int|
                    {
                        &&& 0 <= i < x.len()
                        &&& i < y.len()
                        &&& #[trigger] x[i] != y[i]
                        &&& text_before(x[i], y[i])
                        &&& x.take(i) == y.take(i)
                    };
                assert(a[i + 1] == x[i] && b[i + 1] == y[i]);
                assert(a.take(i + 1) =~= seq![a.first()] + x.take(i));
                assert(b.take(i + 1) =~= seq![b.first()] + y.take(i));
            }
            if exists|i: int|
                {
                    &&& 0 <= i < a.len()
                    &&& i < b.len()
                    &&& #[trigger] a[i] != b[i]
                    &&& text_before(a[i], b[i])
                    &&& a.take(i) == b.take(i)
                } {
                let i = choose|i: int|
                    {
                        &&& 0 <= i < a.len()
                        &&& i < b.len()
                        &&& #[trigger] a[i] != b[i]
                        &&& text_before(a[i], b[i])
                        &&& a.take(i) == b.take(i)
                    };
                assert(x[i - 1] == a[i] && y[i - 1] == b[i]);
                assert(x.take(i - 1) =~= a.take(i).drop_first());
                assert(y.take(i - 1) =~= b.take(i).drop_first());
            }
        } else {
            if a.len() < b.len() && b.take(a.len() as int) == a {
                assert(b.take(a.len() as int)[0] == b[0]);
            }
            assert(a.take(0) =~= b.take(0));
            assert(path_before(a, b) == text_before(a[0], b[0]));
            assert(a[0] != b[0]);
            assert forall|i: int|
                0 <= i < a.len() && i < b.len() && #[trigger] a[i] != b[i] && a.take(i) == b.take(
                    i,
                ) implies i == 0 by {
                if i > 0 {
                    assert(a.take(i)[0] == b.take(i)[0]);
                }
            }
        }
    } else if a.len() == 0 && b.len() > 0 {
        assert(b.take(0) =~= a);
    }
}

/// A number is written with its lowest digit last, behind what is left of it where anything is.
pub proof fn a_number_is_written_digit_by_digit(n: nat, d: nat)
    requires
        d < 10,
    ensures
        decimal(d).len() == 1,
        decimal(d)[0] as int == '0' as int + d,
        n > 0 ==> decimal(10 * n + d) == decimal(n).push(decimal(d)[0]),
{
    if n > 0 {
        let all = 10 * n + d;
        assert(all / 10 == n && all % 10 == d);
    }
}

/// So many zeros.
spec fn zeros(count: nat) -> Seq<char> {
    Seq::new(count, |i: int| '0')
}

proof fn lemma_zeros_add_nothing(count: nat, digits: Seq<char>)
    ensures
        digits_value(zeros(count) + digits) == digits_value(digits),
    decreases digits.len(), count,
{
    let all = zeros(count) + digits;
    if digits.len() > 0 {
        assert(all.drop_last() =~= zeros(count) + digits.drop_last());
        assert(all.last() == digits.last());
        lemma_zeros_add_nothing(count, digits.drop_last());
    } else {
        assert(all =~= zeros(count));
        if count > 0 {
            let fewer = zeros((count - 1) as nat);
            assert(all.drop_last() =~= fewer + digits);
            lemma_zeros_add_nothing((count - 1) as nat, digits);
        } else {
            assert(all =~= digits);
        }
    }
}

proof fn lemma_digits_of_value(digits: Seq<char>) -> (count: nat)
    requires
        digits.len() > 0,
        forall|i: int| 0 <= i < digits.len() ==> is_digit(#[trigger] digits[i]),
    ensures
        digits_value(digits) >= 0,
        digits == zeros(count) + decimal(digits_value(digits) as nat),
    decreases digits.len(),
{
    let most = digits.drop_last();
    let d = digits.last() as int - '0' as int;
    assert(is_digit(digits[digits.len() - 1]));
    assert(digit(d) == digits.last());
    if most.len() == 0 {
        assert(digits_value(most) == 0);
        assert(digits =~= zeros(0) + decimal(d as nat));
        0
    } else {
        assert forall|i: int| 0 <= i < most.len() implies is_digit(#[trigger] most[i]) by {
            assert(most[i] == digits[i]);
        }
        let count = lemma_digits_of_value(most);
        let v = digits_value(most);
        if v > 0 {
            a_number_is_written_digit_by_digit(v as nat, d as nat);
            assert(digits_value(digits) == 10 * v + d);
            assert(decimal(d as nat)[0] == digits.last());
            assert(digits =~= most.push(digits.last()));
            assert(digits =~= zeros(count) + decimal((10 * v + d) as nat));
            count
        } else {
            assert(digits =~= zeros(count + 1) + decimal(d as nat)) by {
                assert(most =~= zeros(count) + seq!['0']);
                assert(digits =~= most.push(digits.last()));
            }
            count + 1
        }
    }
}

/// Reading a number gives it back from its digits, with any zeros in front of them and with a plus
/// sign or without.
pub proof fn a_number_is_read_behind_zeros(n: u64, zero_count: nat)
    ensures
        ({
            let digits = Seq::new(zero_count, |i: int| '0') + decimal(n as nat);
            &&& number_of(digits) == Some(n)
            &&& number_of(seq!['+'] + digits) == Some(n)
        }),
{
    let digits = Seq::new(zero_count, |i: int| '0') + decimal(n as nat);
    lemma_decimal(n as nat);
    assert(digits == zeros(zero_count) + decimal(n as nat));
    lemma_zeros_add_nothing(zero_count, decimal(n as nat));
    assert forall|i: int| 0 <= i < digits.len() implies is_digit(#[trigger] digits[i]) by {
        if i >= zero_count {
            assert(digits[i] == decimal(n as nat)[i - zero_count]);
        }
    }
    assert(is_digit(digits[0]));
    assert(unsigned(digits) == digits);
    assert((seq!['+'] + digits).drop_first() =~= digits);
}

/// Nothing but the digits of a number is read as that number, with any zeros in front of them and
/// with a plus sign or without.
pub proof fn only_digits_are_read_as_a_number(text: Seq<char>) -> (zero_count: nat)
    requires
        number_of(text) is Some,
    ensures
        ({
            let digits = Seq::new(zero_count, |i: int| '0') + decimal(
                number_of(text)->Some_0 as nat,
            );
            text == digits || text == seq!['+'] + digits
        }),
{
    let digits = unsigned(text);
    let count = lemma_digits_of_value(digits);
    if digits != text {
        assert(text =~= seq!['+'] + digits);
    }
    count
}

} // verus!
