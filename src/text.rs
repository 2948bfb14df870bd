//! Text helpers: searching and comparing strings.
use vstd::prelude::*;

use vstd::string::{StrSliceExecFns, StringExecFns};

verus! {

/// Whether `needle` occurs in `hay` at position `i`.
pub open spec fn occurs_at(hay: Seq<char>, needle: Seq<char>, i: int) -> bool {
    0 <= i && i + needle.len() <= hay.len() && hay.subrange(i, i + needle.len()) == needle
}

/// Whether `needle` occurs anywhere in `hay`.
pub open spec fn has_text(hay: Seq<char>, needle: Seq<char>) -> bool {
    exists|i: int| occurs_at(hay, needle, i)
}

fn matches_at(hay: &str, needle: &str, i: usize) -> (r: bool)
    requires
        i + needle@.len() <= hay@.len(),
    ensures
        r == occurs_at(hay@, needle@, i as int),
{
    let n = needle.unicode_len();
    let h = hay.unicode_len();
    let mut j: usize = 0;
    while j < n
        invariant
            n == needle@.len(),
            h == hay@.len(),
            i + n <= hay@.len(),
            j <= n,
            forall|k: int| 0 <= k < j ==> hay@[i + k] == needle@[k],
        decreases n - j,
    {
        if hay.get_char(i + j) != needle.get_char(j) {
            assert(hay@.subrange(i as int, i + n)[j as int] != needle@[j as int]);
            return false;
        }
        j = j + 1;
    }
    assert(hay@.subrange(i as int, i + n) == needle@);
    true
}

/// Whether `needle` occurs in `hay`.
pub fn contains_text(hay: &str, needle: &str) -> (r: bool)
    ensures
        r == has_text(hay@, needle@),
{
    let h = hay.unicode_len();
    let n = needle.unicode_len();
    if n > h {
        return false;
    }
    if n == 0 {
        assert(hay@.subrange(0, 0) =~= needle@);
        assert(occurs_at(hay@, needle@, 0));
        return true;
    }
    let mut i: usize = 0;
    while i <= h - n
        invariant
            h == hay@.len(),
            n == needle@.len(),
            1 <= n <= h,
            i <= h - n + 1,
            forall|k: int| 0 <= k < i ==> !occurs_at(hay@, needle@, k),
        decreases h - i,
    {
        if matches_at(hay, needle, i) {
            return true;
        }
        i = i + 1;
    }
    false
}

/// Whether `a` and `b` hold the same characters.
pub fn same_text(a: &str, b: &str) -> (r: bool)
    ensures
        r == (a@ == b@),
{
    let n = a.unicode_len();
    if n != b.unicode_len() {
        return false;
    }
    assert(a@.subrange(0, n as int) == a@);
    matches_at(a, b, 0)
}

/// The character of decimal digit `d`.
pub open spec fn digit_char(d: int) -> char {
    if d == 0 {
        '0'
    } else if d == 1 {
        '1'
    } else if d == 2 {
        '2'
    } else if d == 3 {
        '3'
    } else if d == 4 {
        '4'
    } else if d == 5 {
        '5'
    } else if d == 6 {
        '6'
    } else if d == 7 {
        '7'
    } else if d == 8 {
        '8'
    } else {
        '9'
    }
}

/// Decimal digits of `n`, most significant first, without leading zeros.
pub open spec fn digits(n: nat) -> Seq<char>
    decreases n,
{
    if n < 10 {
        seq![digit_char(n as int)]
    } else {
        digits(n / 10) + seq![digit_char((n % 10) as int)]
    }
}

/// Decimal text of `n`, with a leading `-` when it is negative.
pub open spec fn decimal(n: int) -> Seq<char> {
    if n < 0 {
        seq!['-'] + digits((-n) as nat)
    } else {
        digits(n as nat)
    }
}

fn digit_str(d: u64) -> (r: &'static str)
    requires
        d < 10,
    ensures
        r@ == seq![digit_char(d as int)],
{
    proof {
        reveal_strlit("0");
        reveal_strlit("1");
        reveal_strlit("2");
        reveal_strlit("3");
        reveal_strlit("4");
        reveal_strlit("5");
        reveal_strlit("6");
        reveal_strlit("7");
        reveal_strlit("8");
        reveal_strlit("9");
    }
    match d {
        0 => "0",
        1 => "1",
        2 => "2",
        3 => "3",
        4 => "4",
        5 => "5",
        6 => "6",
        7 => "7",
        8 => "8",
        _ => "9",
    }
}

fn push_digits(out: &mut String, v: u64)
    ensures
        final(out)@ == old(out)@ + digits(v as nat),
    decreases v,
{
    if v >= 10 {
        push_digits(out, v / 10);
    }
    let tail = digit_str(v % 10);
    out.append(tail);
    proof {
        if v < 10 {
            assert(v % 10 == v);
        }
    }
}

/// Appends the decimal text of `n` to `out`.
pub fn push_decimal(out: &mut String, n: i64)
    requires
        n > i64::MIN,
    ensures
        final(out)@ == old(out)@ + decimal(n as int),
{
    if n < 0 {
        proof {
            reveal_strlit("-");
        }
        out.append("-");
        let ghost mid = out@;
        push_digits(out, (-n) as u64);
        assert(out@ == old(out)@ + decimal(n as int));
    } else {
        push_digits(out, n as u64);
    }
}

/// Decimal text of `n`.
pub fn decimal_text(n: i32) -> (r: String)
    ensures
        r@ == decimal(n as int),
{
    let mut out = String::new();
    push_decimal(&mut out, n as i64);
    assert(out@ == Seq::<char>::empty() + decimal(n as int));
    out
}

/// Remainder of `a` by 100 with the sign of `a`.
pub open spec fn cents(a: int) -> int {
    if a >= 0 {
        a % 100
    } else {
        -((-a) % 100)
    }
}

/// An amount of copper as gold, silver and copper: `12g 34s 56c`, the gold
/// part from 10000 up and the silver part from 100 up.
pub open spec fn money_text(amount: int) -> Seq<char> {
    (if amount >= 10000 {
        decimal(amount / 10000) + "g "@
    } else {
        Seq::empty()
    }) + (if amount >= 100 {
        decimal((amount / 100) % 100) + "s "@
    } else {
        Seq::empty()
    }) + decimal(cents(amount)) + "c"@
}

/// Formats an amount of copper as gold, silver and copper.
pub fn money(amount: i32) -> (r: String)
    ensures
        r@ == money_text(amount as int),
{
    proof {
        reveal_strlit("g ");
        reveal_strlit("s ");
        reveal_strlit("c");
    }
    let mut out = String::new();
    let ghost gold = if amount >= 10000 {
        decimal(amount / 10000) + "g "@
    } else {
        Seq::empty()
    };
    let ghost silver = if amount >= 100 {
        decimal((amount / 100) % 100) + "s "@
    } else {
        Seq::empty()
    };
    if amount >= 10000 {
        push_decimal(&mut out, (amount / 10000) as i64);
        out.append("g ");
    }
    assert(out@ == gold);
    if amount >= 100 {
        push_decimal(&mut out, ((amount / 100) % 100) as i64);
        out.append("s ");
    }
    assert(out@ == gold + silver);
    let c: i64 = if amount >= 0 {
        (amount % 100) as i64
    } else {
        -((-(amount as i64)) % 100)
    };
    push_decimal(&mut out, c);
    out.append("c");
    out
}

} // verus!
