//! The state of an integer average: a sum and a count.
use vstd::prelude::*;
use crate::text::{decimal, decimal_text};

verus! {

/// The quotient of `a` by `b`, rounded towards zero.
pub open spec fn quotient(a: int, b: int) -> int {
    if a >= 0 && b > 0 {
        a / b
    } else if a < 0 && b > 0 {
        -((-a) / b)
    } else if a >= 0 && b < 0 {
        -(a / (-b))
    } else {
        (-a) / (-b)
    }
}

/// A quotient is no larger in size than what is divided.
proof fn lemma_quotient_in_range(a: int, b: int)
    requires
        b != 0,
    ensures
        a >= 0 ==> -a <= quotient(a, b) <= a,
        a < 0 ==> a <= quotient(a, b) <= -a,
        a < 0 && b < -1 ==> quotient(a, b) < -a,
{
    let x = if a >= 0 { a } else { -a };
    let d = if b > 0 { b } else { -b };
    assert(0 <= x / d <= x) by (nonlinear_arith)
        requires
            x >= 0,
            d > 0,
    ;
    if a < 0 && b < -1 {
        assert(x / d < x) by (nonlinear_arith)
            requires
                x > 0,
                d > 1,
        ;
    }
}

/// The quotient, written as the checked division of the machine integers
/// is written.
proof fn lemma_quotient_by_signs(x: int, d: int)
    requires
        d != 0,
    ensures
        quotient(x, d) == if x == 0 {
            0
        } else if x > 0 && d > 0 {
            x / d
        } else if x < 0 && d < 0 {
            ((x * -1) / (d * -1))
        } else if x < 0 {
            ((x * -1) / d) * -1
        } else {
            (x / (d * -1)) * -1
        },
{
    assert(x * -1 == -x);
    assert(d * -1 == -d);
    if x == 0 {
        lemma_quotient_in_range(x, d);
    }
}

/// The state of an average as contracts see it.
pub struct AverageModel {
    pub sum: int,
    pub n: int,
}

/// The running state of an integer average: the sum of the values seen and
/// their number.
#[derive(Debug, Clone, Copy, PartialEq, Eq)]
pub struct IntegerAvgState {
    sum: i32,
    n: i32,
}

impl View for IntegerAvgState {
    type V = AverageModel;

    closed spec fn view(&self) -> AverageModel {
        AverageModel { sum: self.sum as int, n: self.n as int }
    }
}

impl IntegerAvgState {
    /// The state with the given sum and count.
    pub fn new(sum: i32, n: i32) -> (r: Self)
        ensures
            r@ == (AverageModel { sum: sum as int, n: n as int }),
    {
        IntegerAvgState { sum, n }
    }

    /// The sum of the values seen.
    pub fn sum(&self) -> (r: i32)
        ensures
            r == self@.sum,
    {
        self.sum
    }

    /// The number of values seen.
    pub fn n(&self) -> (r: i32)
        ensures
            r == self@.n,
    {
        self.n
    }

    /// The state after one more value.
    pub fn state(current: Self, arg: i32) -> (r: Self)
        requires
            i32::MIN <= current@.sum + arg <= i32::MAX,
            current@.n < i32::MAX,
        ensures
            r@ == (AverageModel { sum: current@.sum + arg, n: current@.n + 1 }),
    {
        let mut current = current;
        current.sum = current.sum + arg;
        current.n = current.n + 1;
        current
    }

    /// The average: the sum by the count, rounded towards zero.
    pub fn finalize(current: Self) -> (r: i32)
        requires
            current@.n != 0,
            !(current@.sum == i32::MIN && current@.n == -1),
        ensures
            r == quotient(current@.sum, current@.n),
    {
        proof {
            lemma_quotient_in_range(current.sum as int, current.n as int);
            lemma_quotient_by_signs(current.sum as int, current.n as int);
        }
        match current.sum.checked_div(current.n) {
            Some(r) => r,
            None => 0,
        }
    }
}

impl Default for IntegerAvgState {
    fn default() -> (r: Self)
        ensures
            r@ == (AverageModel { sum: 0, n: 0 }),
    {
        IntegerAvgState { sum: 0, n: 0 }
    }
}


/// The byte is a decimal digit.
pub open spec fn is_digit(b: u8) -> bool {
    0x30 <= b <= 0x39
}

/// All bytes are decimal digits.
pub open spec fn all_digits(s: Seq<u8>) -> bool {
    forall|i: int| 0 <= i < s.len() ==> is_digit(#[trigger] s[i])
}

/// The number that a row of decimal digits stands for.
pub open spec fn digits_value(s: Seq<u8>) -> int
    decreases s.len(),
{
    if s.len() == 0 {
        0
    } else {
        digits_value(s.drop_last()) * 10 + (s.last() - 0x30)
    }
}

/// The number that `s` stands for: an optional sign, `+` or `-`, and then
/// one or more decimal digits, nothing before and nothing behind, the
/// whole within the range of the type.
pub open spec fn parse_i32(s: Seq<u8>) -> Option<i32> {
    let negative = s.len() > 0 && s[0] == 0x2d;
    let signed = s.len() > 0 && (s[0] == 0x2d || s[0] == 0x2b);
    let body = if signed {
        s.skip(1)
    } else {
        s
    };
    let value = if negative {
        -digits_value(body)
    } else {
        digits_value(body)
    };
    if body.len() > 0 && all_digits(body) && i32::MIN <= value <= i32::MAX {
        Some(value as i32)
    } else {
        None
    }
}

/// `e` is where the field ends that starts at `from`: at the next comma,
/// or at the end of `s`.
pub open spec fn field_end(s: Seq<u8>, from: int, e: int) -> bool {
    &&& from <= e <= s.len()
    &&& e < s.len() ==> s[e] == 0x2c
    &&& forall|j: int| from <= j < e ==> s[j] != 0x2c
}

/// The state that `input` stands for: two numbers with a comma between
/// them, the sum and then the count. What follows a second comma is not
/// read.
pub open spec fn reads_as(input: Seq<u8>, state: AverageModel) -> bool {
    exists|c: int, e: int|
        #![trigger field_end(input, 0, c), field_end(input, c + 1, e)]
        {
            &&& field_end(input, 0, c)
            &&& c < input.len()
            &&& field_end(input, c + 1, e)
            &&& parse_i32(input.subrange(0, c)) == Some(state.sum as i32)
            &&& parse_i32(input.subrange(c + 1, e)) == Some(state.n as i32)
            &&& i32::MIN <= state.sum <= i32::MAX
            &&& i32::MIN <= state.n <= i32::MAX
        }
}

/// A number in decimal, with `-` before it if it is negative.
pub open spec fn signed_decimal(v: int) -> Seq<char> {
    if v < 0 {
        "-"@ + decimal_text((-v) as nat)
    } else {
        decimal_text(v as nat)
    }
}

/// A row of digits stands for no less than any of its beginnings.
proof fn lemma_digits_grow(s: Seq<u8>, k: int)
    requires
        all_digits(s),
        0 <= k <= s.len(),
    ensures
        0 <= digits_value(s.take(k)) <= digits_value(s),
    decreases s.len() - k,
{
    if k == s.len() {
        assert(s.take(k) =~= s);
        lemma_digits_nonnegative(s);
    } else {
        lemma_digits_grow(s, k + 1);
        let longer = s.take(k + 1);
        assert(longer.drop_last() =~= s.take(k));
        assert(is_digit(s[k]));
        lemma_digits_nonnegative(s.take(k));
    }
}

/// A row of digits stands for no negative number.
proof fn lemma_digits_nonnegative(s: Seq<u8>)
    requires
        all_digits(s),
    ensures
        0 <= digits_value(s),
    decreases s.len(),
{
    if s.len() > 0 {
        assert(is_digit(s[s.len() - 1]));
        lemma_digits_nonnegative(s.drop_last());
    }
}

/// Where the field ends that starts at `from`.
fn field_end_from(s: &[u8], from: usize) -> (e: usize)
    requires
        from <= s.len(),
    ensures
        field_end(s@, from as int, e as int),
{
    let mut e: usize = from;
    while e < s.len() && s[e] != 0x2c
        invariant
            from <= e <= s.len(),
            forall|j: int| from <= j < e ==> s@[j] != 0x2c,
        decreases s.len() - e,
    {
        e += 1;
    }
    e
}

/// The number that the bytes from `from` up to `to` stand for.
fn parse_number(s: &[u8], from: usize, to: usize) -> (r: Option<i32>)
    requires
        from <= to <= s.len(),
    ensures
        r == parse_i32(s@.subrange(from as int, to as int)),
{
    let ghost text = s@.subrange(from as int, to as int);
    if from == to {
        return None;
    }
    let negative = s[from] == 0x2d;
    let signed = negative || s[from] == 0x2b;
    let start = if signed {
        from + 1
    } else {
        from
    };
    let ghost body = if signed {
        text.skip(1)
    } else {
        text
    };
    assert(text[0] == s@[from as int]);
    assert(body =~= s@.subrange(start as int, to as int));
    if start == to {
        return None;
    }
    let mut acc: i64 = 0;
    let mut i: usize = start;
    assert(body.take(0) =~= Seq::<u8>::empty());
    while i < to
        invariant
            start <= i <= to <= s.len(),
            start < to,
            text == s@.subrange(from as int, to as int),
            body == s@.subrange(start as int, to as int),
            negative == (text.len() > 0 && text[0] == 0x2d),
            body == if text.len() > 0 && (text[0] == 0x2d || text[0] == 0x2b) {
                text.skip(1)
            } else {
                text
            },
            all_digits(body.take(i - start)),
            acc == digits_value(body.take(i - start)),
            0 <= acc <= 0x8000_0000,
        decreases to - i,
    {
        let b = s[i];
        let ghost longer = body.take(i - start + 1);
        proof {
            assert(longer.drop_last() =~= body.take(i - start));
            assert(longer.last() == b);
        }
        if b < 0x30 || b > 0x39 {
            assert(!is_digit(body[i - start]));
            return None;
        }
        let next = acc * 10 + (b - 0x30) as i64;
        if next > 0x8000_0000 {
            proof {
                if all_digits(body) {
                    lemma_digits_grow(body, i - start + 1);
                }
            }
            return None;
        }
        proof {
            assert forall|j: int| 0 <= j < longer.len() implies is_digit(#[trigger] longer[j]) by {
                if j < i - start {
                    assert(longer[j] == body.take(i - start)[j]);
                }
            }
        }
        acc = next;
        i += 1;
    }
    assert(body.take(to - start) =~= body);
    if negative {
        Some((-acc) as i32)
    } else if acc <= 0x7fff_ffff {
        Some(acc as i32)
    } else {
        None
    }
}

/// The number in decimal.
fn signed_text(v: i32) -> (r: String)
    ensures
        r@ == signed_decimal(v as int),
{
    if v < 0 {
        let mut r = String::from_str("-");
        r.append(decimal((-(v as i64)) as u32).as_str());
        r
    } else {
        decimal(v as u32)
    }
}

impl IntegerAvgState {
    /// Reads a state from its text, the sum and the count with a comma
    /// between them. Text that does not read so gives nothing.
    pub fn input(input: &[u8]) -> (r: Option<Self>)
        ensures
            match r {
                Some(state) => reads_as(input@, state@),
                None => forall|state: AverageModel| !reads_as(input@, state),
            },
    {
        let c = field_end_from(input, 0);
        if c >= input.len() {
            proof {
                assert forall|state: AverageModel| !reads_as(input@, state) by {
                    if reads_as(input@, state) {
                        let (c2, e2) = choose|c2: int, e2: int|
                            #![trigger field_end(input@, 0, c2), field_end(input@, c2 + 1, e2)]
                            field_end(input@, 0, c2) && c2 < input@.len() && field_end(
                                input@,
                                c2 + 1,
                                e2,
                            );
                        assert(input@[c2] == 0x2c);
                    }
                }
            }
            return None;
        }
        let e = field_end_from(input, c + 1);
        let sum = parse_number(input, 0, c);
        let n = parse_number(input, c + 1, e);
        proof {
            assert forall|c2: int, e2: int|
                #![trigger field_end(input@, 0, c2), field_end(input@, c2 + 1, e2)]
                field_end(input@, 0, c2) && c2 < input@.len() && field_end(
                    input@,
                    c2 + 1,
                    e2,
                ) implies c2 == c && e2 == e by {
                if c2 < c {
                    assert(input@[c2] == 0x2c);
                } else if c < c2 {
                    assert(input@[c as int] == 0x2c);
                }
                if e2 < e {
                    assert(input@[e2] == 0x2c);
                } else if e < e2 {
                    assert(input@[e as int] == 0x2c);
                }
            }
        }
        match (sum, n) {
            (Some(sum), Some(n)) => {
                let state = IntegerAvgState { sum, n };
                assert(reads_as(input@, state@));
                Some(state)
            },
            _ => None,
        }
    }

    /// Writes the state as text: the sum and the count in decimal, with a
    /// comma between them.
    pub fn output(&self) -> (r: String)
        ensures
            r@ == signed_decimal(self@.sum) + ","@ + signed_decimal(self@.n),
    {
        let mut r = signed_text(self.sum);
        r.append(",");
        r.append(signed_text(self.n).as_str());
        r
    }
}

} // verus!
