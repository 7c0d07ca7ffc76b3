//! Building text from verified code: decimal numerals, and one character at
//! a time.
use vstd::prelude::*;
use crate::lexer::{byte_len, char_width};
use vstd::string::StringExecFns;

verus! {

/// The decimal digit for `d`, which is below ten.
pub open spec fn digit_char(d: nat) -> char {
    if d == 0 { '0' } else if d == 1 { '1' } else if d == 2 { '2' } else if d == 3 { '3' }
    else if d == 4 { '4' } else if d == 5 { '5' } else if d == 6 { '6' } else if d == 7 { '7' }
    else if d == 8 { '8' } else { '9' }
}

/// `n` written in decimal, with no leading zeros (zero is `0`).
pub open spec fn decimal(n: nat) -> Seq<char>
    decreases n,
{
    if n < 10 {
        seq![digit_char(n)]
    } else {
        decimal(n / 10).push(digit_char(n % 10))
    }
}

/// `n` written in decimal, with a `-` before a negative number.
pub open spec fn signed_decimal(n: int) -> Seq<char> {
    if n < 0 {
        seq!['-'] + decimal((-n) as nat)
    } else {
        decimal(n as nat)
    }
}

/// Appends one character to `s` (`String::push`).
#[verifier::external_body]
pub fn push_char(s: &mut String, c: char)
    ensures
        final(s)@ == old(s)@.push(c),
{
    s.push(c);
}

/// Appends `t` to `s`.
pub fn push_str(s: &mut String, t: &str)
    ensures
        final(s)@ == old(s)@ + t@,
{
    s.append(t);
}

fn digit(d: u64) -> (c: char)
    requires
        d < 10,
    ensures
        c == digit_char(d as nat),
{
    if d == 0 { '0' } else if d == 1 { '1' } else if d == 2 { '2' } else if d == 3 { '3' }
    else if d == 4 { '4' } else if d == 5 { '5' } else if d == 6 { '6' } else if d == 7 { '7' }
    else if d == 8 { '8' } else { '9' }
}

/// Appends `n` in decimal to `out`.
pub fn push_u64(out: &mut String, n: u64)
    ensures
        final(out)@ == old(out)@ + decimal(n as nat),
    decreases n,
{
    if n < 10 {
        push_char(out, digit(n));
        assert(decimal(n as nat) == seq![digit_char(n as nat)]);
    } else {
        push_u64(out, n / 10);
        push_char(out, digit(n % 10));
        assert(old(out)@ + decimal(n as nat) == old(out)@ + decimal((n / 10) as nat) + seq![
            digit_char((n % 10) as nat),
        ]);
    }
}

/// Appends `n` in decimal to `out`.
pub fn push_usize(out: &mut String, n: usize)
    ensures
        final(out)@ == old(out)@ + decimal(n as nat),
{
    push_u64(out, n as u64);
}

/// Appends `n` in decimal, with its sign, to `out`.
pub fn push_i64(out: &mut String, n: i64)
    ensures
        final(out)@ == old(out)@ + signed_decimal(n as int),
{
    if n < 0 {
        push_char(out, '-');
        let magnitude: u64 = if n == i64::MIN {
            9223372036854775808u64
        } else {
            (-n) as u64
        };
        push_u64(out, magnitude);
        assert(old(out)@ + signed_decimal(n as int) == old(out)@.push('-') + decimal(
            magnitude as nat,
        ));
    } else {
        push_u64(out, n as u64);
    }
}

/// `n` in decimal.
pub fn usize_text(n: usize) -> (s: String)
    ensures
        s@ == decimal(n as nat),
{
    let mut s = String::new();
    push_usize(&mut s, n);
    s
}

/// The characters `cs[from..to]`, as text.
pub fn string_of(cs: &Vec<char>, from: usize, to: usize) -> (s: String)
    requires
        from <= to <= cs@.len(),
    ensures
        s@ == cs@.subrange(from as int, to as int),
{
    let mut s = String::new();
    let mut k = from;
    while k < to
        invariant
            from <= k <= to <= cs@.len(),
            s@ == cs@.subrange(from as int, k as int),
        decreases to - k,
    {
        push_char(&mut s, cs[k]);
        k += 1;
        assert(s@ =~= cs@.subrange(from as int, k as int));
    }
    s
}

/// `a + b`, or `usize::MAX` where that does not fit.
pub fn saturating_add(a: usize, b: usize) -> (c: usize)
    ensures
        a + b <= usize::MAX ==> c == a + b,
        a + b > usize::MAX ==> c == usize::MAX,
{
    if a <= usize::MAX - b {
        a + b
    } else {
        usize::MAX
    }
}

/// How many bytes `cs` takes in UTF-8, or `usize::MAX` where that does not
/// fit.
pub fn byte_count(cs: &Vec<char>) -> (n: usize)
    ensures
        n == if byte_len(cs@) <= usize::MAX { byte_len(cs@) } else { usize::MAX as nat },
{
    let mut n: usize = 0;
    let mut k: usize = 0;
    while k < cs.len()
        invariant
            k <= cs@.len(),
            n == if byte_len(cs@.subrange(0, k as int)) <= usize::MAX {
                byte_len(cs@.subrange(0, k as int))
            } else {
                usize::MAX as nat
            },
        decreases cs@.len() - k,
    {
        assert(cs@.subrange(0, k + 1).drop_last() =~= cs@.subrange(0, k as int));
        n = saturating_add(n, char_width(cs[k]));
        k += 1;
    }
    assert(cs@.subrange(0, cs@.len() as int) =~= cs@);
    n
}


/// Whether `a` and `b` are the same text.
pub fn same_text(a: &str, b: &str) -> (r: bool)
    ensures
        r == (a@ == b@),
{
    let x = crate::lexer::chars_of(a);
    let y = crate::lexer::chars_of(b);
    if x.len() != y.len() {
        return false;
    }
    let mut k: usize = 0;
    while k < x.len()
        invariant
            x@ == a@,
            y@ == b@,
            x@.len() == y@.len(),
            k <= x@.len(),
            forall|j: int| 0 <= j < k ==> x@[j] == y@[j],
        decreases x@.len() - k,
    {
        if x[k] != y[k] {
            return false;
        }
        k += 1;
    }
    assert(x@ =~= y@);
    true
}

/// Whether `a` begins with `c`.
pub fn begins_with(a: &str, c: char) -> (r: bool)
    ensures
        r == (a@.len() > 0 && a@[0] == c),
{
    let x = crate::lexer::chars_of(a);
    x.len() > 0 && x[0] == c
}

/// How many characters `a` has.
pub fn width_of(a: &str) -> (n: usize)
    ensures
        n == a@.len(),
{
    crate::lexer::chars_of(a).len()
}

/// `n` spaces.
pub fn spaces(n: usize) -> (s: String)
    ensures
        s@ == Seq::new(n as nat, |_i: int| ' '),
{
    let mut s = String::new();
    let mut k: usize = 0;
    while k < n
        invariant
            k <= n,
            s@ == Seq::new(k as nat, |_i: int| ' '),
        decreases n - k,
    {
        push_char(&mut s, ' ');
        k += 1;
        assert(s@ =~= Seq::new(k as nat, |_i: int| ' '));
    }
    s
}

/// `a` without the white space it ends with.
pub fn trim_end(a: &str) -> (s: String)
    ensures
        s@.len() <= a@.len(),
        s@ == a@.subrange(0, s@.len() as int),
        s@.len() == 0 || !crate::lexer::is_space(s@.last()),
        forall|j: int| s@.len() <= j < a@.len() ==> crate::lexer::is_space(#[trigger] a@[j]),
{
    let x = crate::lexer::chars_of(a);
    let mut end = x.len();
    while end > 0 && crate::lexer::space(x[end - 1])
        invariant
            end <= x@.len(),
            x@ == a@,
            forall|j: int| end <= j < a@.len() ==> crate::lexer::is_space(#[trigger] a@[j]),
        decreases end,
    {
        end -= 1;
    }
    string_of(&x, 0, end)
}

/// How many line feeds the first `k` characters of `s` hold.
pub open spec fn feeds(s: Seq<char>, k: int) -> int
    decreases k,
{
    if k <= 0 {
        0
    } else {
        feeds(s, k - 1) + if s[k - 1] == '\n' {
            1int
        } else {
            0int
        }
    }
}

/// How many line feeds `a` holds.
pub fn line_feeds(a: &str) -> (n: usize)
    ensures
        n <= a@.len(),
        n == feeds(a@, a@.len() as int),
{
    let x = crate::lexer::chars_of(a);
    let mut n: usize = 0;
    let mut k: usize = 0;
    while k < x.len()
        invariant
            k <= x@.len(),
            n <= k,
            x@ == a@,
            n == feeds(a@, k as int),
        decreases x@.len() - k,
    {
        if x[k] == '\n' {
            n += 1;
        }
        k += 1;
    }
    n
}

} // verus!
