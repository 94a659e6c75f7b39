//! Numbers as text.

use vstd::prelude::*;
use vstd::string::{StrSliceExecFns, StringExecFns};

verus! {

pub open spec fn digit(d: int) -> char {
    if d < 10 {
        (48 + d) as char
    } else {
        (87 + d) as char
    }
}

/// The digits of a number in the given base, without leading zeros.
pub open spec fn digits(n: int, base: int) -> Seq<char>
    decreases n,
{
    if n < base || base < 2 {
        seq![digit(n)]
    } else {
        proof {
            assert(0 <= n / base < n) by (nonlinear_arith)
                requires
                    n >= base,
                    base >= 2,
            ;
        }
        digits(n / base, base).push(digit(n % base))
    }
}

/// A number in decimal.
pub open spec fn decimal(n: int) -> Seq<char> {
    digits(n, 10)
}

/// Text with zeros in front up to the given width.
pub open spec fn padded(s: Seq<char>, width: nat) -> Seq<char> {
    if s.len() >= width {
        s
    } else {
        Seq::new((width - s.len()) as nat, |i: int| '0') + s
    }
}

fn digit_str(d: u64) -> (s: &'static str)
    requires
        d < 16,
    ensures
        s@ == seq![digit(d as int)],
{
    proof {
        reveal_strlit("0");
        reveal_strlit("1");
        reveal_strlit("2");
        reveal_strlit("3");
        reveal_strlit("4");
        reveal_strlit("5");
        reveal_strlit("6");
        reveal_strlit("7");
        reveal_strlit("8");
        reveal_strlit("9");
        reveal_strlit("a");
        reveal_strlit("b");
        reveal_strlit("c");
        reveal_strlit("d");
        reveal_strlit("e");
        reveal_strlit("f");
    }
    let s: &'static str = match d {
        0 => "0",
        1 => "1",
        2 => "2",
        3 => "3",
        4 => "4",
        5 => "5",
        6 => "6",
        7 => "7",
        8 => "8",
        9 => "9",
        10 => "a",
        11 => "b",
        12 => "c",
        13 => "d",
        14 => "e",
        _ => "f",
    };
    assert(s@ =~= seq![digit(d as int)]);
    s
}

/// Appends the digits of a number; returns how many there were.
fn push_digits(s: &mut String, n: u64, base: u64) -> (count: usize)
    requires
        2 <= base <= 16,
    ensures
        final(s)@ == old(s)@ + digits(n as int, base as int),
        count == digits(n as int, base as int).len(),
        count <= 64,
        n < 2 ==> count == 1,
    decreases n,
{
    let ghost before = s@;
    if n < base {
        s.append(digit_str(n));
        1
    } else {
        proof {
            lemma_digit_count(n as int, base as int);
            assert(n % base < base && 1 <= n / base < n) by (nonlinear_arith)
                requires
                    n >= base,
                    base >= 2,
            ;
        }
        let c: usize = push_digits(s, n / base, base);
        s.append(digit_str(n % base));
        proof {
            assert(s@ =~= before + digits(n as int, base as int));
        }
        c + 1
    }
}

/// Numbers below 2^k have at most k digits in any base.
proof fn lemma_digit_bound(n: int, base: int, k: nat)
    requires
        0 <= n < vstd::arithmetic::power2::pow2(k),
        2 <= base,
        k >= 1,
    ensures
        1 <= digits(n, base).len() <= k,
    decreases n,
{
    if n >= base {
        assert(n / base <= n / 2 && n / base >= 1) by (nonlinear_arith)
            requires
                n >= base,
                base >= 2,
        ;
        vstd::arithmetic::power2::lemma_pow2_unfold(k);
        if k == 1 {
            vstd::arithmetic::power2::lemma2_to64();
        }
        lemma_digit_bound(n / base, base, (k - 1) as nat);
    }
}

proof fn lemma_digit_count(n: int, base: int)
    requires
        0 <= n <= u64::MAX,
        2 <= base,
    ensures
        1 <= digits(n, base).len() <= 64,
{
    vstd::arithmetic::power2::lemma2_to64();
    lemma_digit_bound(n, base, 64);
}

/// Appends a number in decimal.
pub fn push_decimal(s: &mut String, n: u64)
    ensures
        final(s)@ == old(s)@ + decimal(n as int),
{
    push_digits(s, n, 10);
}

/// Appends a number in the given base with leading zeros up to a width.
pub fn push_padded(s: &mut String, n: u64, base: u64, width: usize)
    requires
        2 <= base <= 16,
    ensures
        final(s)@ == old(s)@ + padded(digits(n as int, base as int), width as nat),
{
    let ghost before = s@;
    let ghost text = digits(n as int, base as int);
    let mut scratch: String = String::new();
    let count: usize = push_digits(&mut scratch, n, base);
    let mut i: usize = count;
    proof {
        reveal_strlit("0");
    }
    while i < width
        invariant
            count <= i,
            i <= width || i == count,
            s@ =~= before + Seq::new((i - count) as nat, |j: int| '0'),
            "0"@ =~= seq!['0'],
        decreases width - i,
    {
        s.append("0");
        i = i + 1;
    }
    s.append(scratch.as_str());
    proof {
        assert(scratch@ =~= text);
        assert(s@ =~= before + padded(text, width as nat));
    }
}

/// The number that decimal digits stand for.
pub open spec fn decimal_value(s: Seq<char>) -> int
    decreases s.len(),
{
    if s.len() == 0 {
        0
    } else {
        10 * decimal_value(s.drop_last()) + (s.last() as int - 48)
    }
}

pub open spec fn all_digits(s: Seq<char>) -> bool {
    forall|i: int| 0 <= i < s.len() ==> 48 <= (#[trigger] s[i]) as int <= 57
}

/// The `u64` that a text stands for: decimal digits, with an optional plus
/// sign, and no overflow.
pub open spec fn number_of(s: Seq<char>) -> Option<u64> {
    let body = if s.len() > 0 && s[0] == '+' {
        s.drop_first()
    } else {
        s
    };
    if body.len() > 0 && all_digits(body) && decimal_value(body) <= u64::MAX {
        Some(decimal_value(body) as u64)
    } else {
        None
    }
}

proof fn lemma_decimal_value_grows(s: Seq<char>, i: int)
    requires
        0 <= i <= s.len(),
        all_digits(s),
    ensures
        0 <= decimal_value(s.take(i)) <= decimal_value(s),
    decreases s.len(),
{
    if i < s.len() {
        let t = s.drop_last();
        assert forall|j: int| 0 <= j < t.len() implies 48 <= (#[trigger] t[j]) as int <= 57 by {
            assert(t[j] == s[j]);
        }
        assert(t.take(i) =~= s.take(i));
        lemma_decimal_value_grows(t, i);
        assert(48 <= s[s.len() - 1] as int);
    } else {
        assert(s.take(i) =~= s);
        if s.len() > 0 {
            let t = s.drop_last();
            assert forall|j: int| 0 <= j < t.len() implies 48 <= (#[trigger] t[j]) as int
                <= 57 by {
                assert(t[j] == s[j]);
            }
            lemma_decimal_value_grows(t, t.len() as int);
            assert(t.take(t.len() as int) =~= t);
            assert(48 <= s[s.len() - 1] as int);
        }
    }
}

/// Reads a decimal number from the character at `from` on.
pub fn parse_number(s: &str, from: usize) -> (r: Option<u64>)
    requires
        from <= s@.len(),
    ensures
        r == number_of(s@.skip(from as int)),
{
    let n: usize = s.unicode_len();
    let ghost text = s@.skip(from as int);
    let mut i: usize = from;
    if i < n && s.get_char(i) == '+' {
        i = i + 1;
    }
    let ghost body = if text.len() > 0 && text[0] == '+' {
        text.drop_first()
    } else {
        text
    };
    assert(body =~= s@.skip(i as int));
    if i == n {
        return None;
    }
    let start: usize = i;
    let mut value: u64 = 0;
    while i < n
        invariant
            start <= i <= n == s@.len(),
            text == s@.skip(from as int),
            body == s@.skip(start as int),
            all_digits(body.take(i - start)),
            value == decimal_value(body.take(i - start)),
            start < n,
            number_of(text) == (if all_digits(body) && decimal_value(body) <= u64::MAX {
                Some(decimal_value(body) as u64)
            } else {
                None
            }),
        decreases n - i,
    {
        let c: char = s.get_char(i);
        let ghost k = i - start;
        let code: u32 = c as u32;
        proof {
            assert(body[k] == c);
            assert(body.take(k + 1).drop_last() =~= body.take(k));
            assert(body.take(k + 1).last() == c);
        }
        if code < 48 || code > 57 {
            assert(!(48 <= body[k] as int <= 57));
            return None;
        }
        let d: u64 = (code - 48) as u64;
        proof {
            assert forall|j: int| 0 <= j < k + 1 implies 48 <= (#[trigger] body.take(k + 1)[j]) as int
                <= 57 by {
                if j < k {
                    assert(body.take(k)[j] == body.take(k + 1)[j]);
                }
            }
            if all_digits(body) {
                lemma_decimal_value_grows(body, k + 1);
            }
        }
        if value > 1844674407370955161 || (value == 1844674407370955161 && d > 5) {
            return None;
        }
        value = value * 10 + d;
        i = i + 1;
    }
    assert(body.take(i - start) =~= body);
    Some(value)
}

/// Reading a number in decimal gives it back.
pub proof fn decimal_reads_back(n: int)
    requires
        0 <= n <= u64::MAX,
    ensures
        number_of(decimal(n)) == Some(n as u64),
{
    lemma_decimal_digits(n);
    let s = decimal(n);
    assert(s[0] as int >= 48);
}

proof fn lemma_decimal_digits(n: int)
    requires
        0 <= n,
    ensures
        decimal(n).len() > 0,
        all_digits(decimal(n)),
        decimal_value(decimal(n)) == n,
    decreases n,
{
    let s = decimal(n);
    if n >= 10 {
        lemma_decimal_digits(n / 10);
        assert(s.drop_last() =~= decimal(n / 10));
        assert(s.last() == digit(n % 10));
        assert forall|i: int| 0 <= i < s.len() implies 48 <= (#[trigger] s[i]) as int <= 57 by {
            if i < s.len() - 1 {
                assert(s[i] == decimal(n / 10)[i]);
            }
        }
    } else {
        reveal_with_fuel(decimal_value, 2);
        assert(s =~= seq![digit(n)]);
        assert(s.drop_last() =~= Seq::empty());
        assert(s.last() == digit(n));
    }
}

/// Does the text equal the other?
pub fn same_text(a: &str, b: &str) -> (r: bool)
    ensures
        r == (a@ == b@),
{
    String::from_str(a) == String::from_str(b)
}

/// Does the text start with the other?
pub fn starts_with(a: &str, b: &str) -> (r: bool)
    ensures
        r == (b@.len() <= a@.len() && a@.take(b@.len() as int) == b@),
{
    let n: usize = b.unicode_len();
    if n > a.unicode_len() {
        return false;
    }
    let head: &str = a.substring_char(0, n);
    assert(a@.subrange(0, n as int) =~= a@.take(n as int));
    same_text(head, b)
}

/// Does the text end with the other?
pub fn ends_with(a: &str, b: &str) -> (r: bool)
    ensures
        r == (b@.len() <= a@.len() && a@.skip(a@.len() - b@.len()) == b@),
{
    let n: usize = b.unicode_len();
    let m: usize = a.unicode_len();
    if n > m {
        return false;
    }
    let tail: &str = a.substring_char(m - n, m);
    assert(a@.subrange((m - n) as int, m as int) =~= a@.skip(m - n));
    same_text(tail, b)
}

/// Zeros in front of a number do not change it.
pub proof fn padded_decimal_reads_back(n: int, width: nat)
    requires
        0 <= n,
    ensures
        all_digits(padded(decimal(n), width)),
        decimal_value(padded(decimal(n), width)) == n,
{
    lemma_decimal_digits(n);
    let s = decimal(n);
    if s.len() < width {
        let zeros = Seq::new((width - s.len()) as nat, |i: int| '0');
        lemma_zeros_in_front(zeros, s);
    }
}

proof fn lemma_zeros_in_front(zeros: Seq<char>, s: Seq<char>)
    requires
        forall|i: int| 0 <= i < zeros.len() ==> (#[trigger] zeros[i]) == '0',
    ensures
        decimal_value(zeros + s) == decimal_value(s),
    decreases zeros.len() + s.len(),
{
    if s.len() > 0 {
        assert((zeros + s).drop_last() =~= zeros + s.drop_last());
        assert((zeros + s).last() == s.last());
        lemma_zeros_in_front(zeros, s.drop_last());
    } else if zeros.len() > 0 {
        assert(zeros + s =~= zeros);
        assert(zeros.drop_last() + s =~= zeros.drop_last());
        lemma_zeros_in_front(zeros.drop_last(), s);
    } else {
        assert(zeros + s =~= s);
    }
}

/// Two numbers that are written the same way are the same, and so is what
/// follows them, where that does not begin with a digit.
pub proof fn lemma_number_then_text(a: int, b: int, width: nat, x: Seq<char>, y: Seq<char>)
    requires
        0 <= a,
        0 <= b,
        padded(decimal(a), width) + x == padded(decimal(b), width) + y,
        x.len() > 0,
        y.len() > 0,
        (x[0] as int) < 48,
        (y[0] as int) < 48,
    ensures
        a == b,
        x == y,
{
    let p = padded(decimal(a), width);
    let q = padded(decimal(b), width);
    padded_decimal_reads_back(a, width);
    padded_decimal_reads_back(b, width);
    if p.len() < q.len() {
        assert((p + x)[p.len() as int] == x[0]);
        assert((q + y)[p.len() as int] == q[p.len() as int]);
    }
    if q.len() < p.len() {
        assert((q + y)[q.len() as int] == y[0]);
        assert((p + x)[q.len() as int] == p[q.len() as int]);
    }
    assert(p =~= (p + x).take(p.len() as int));
    assert(q =~= (q + y).take(q.len() as int));
    assert(x =~= (p + x).skip(p.len() as int));
    assert(y =~= (q + y).skip(q.len() as int));
}

} // verus!
