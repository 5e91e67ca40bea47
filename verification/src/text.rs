//! Small text helpers: appending characters, trimming white space, and decimal numerals.
use vstd::prelude::*;
use vstd::string::StrSliceExecFns;
use crate::scanner::{is_white_space, is_white_space_exec};

verus! {

#[verifier::external_body]
/// `String::push`: appends the character.
pub(crate) fn push_char(s: &mut String, c: char)
    ensures
        final(s)@ == old(s)@.push(c),
{
    s.push(c);
}

/// The first position of `s` from `i` on that holds no white space, or the length.
pub open spec fn skip_white(s: Seq<char>, i: nat) -> nat
    decreases s.len() - i,
{
    if i < s.len() && is_white_space(s[i as int]) {
        skip_white(s, i + 1)
    } else {
        i
    }
}

/// The position after the last character of `s[..j]` that is not white space, or `lo`.
pub open spec fn end_white(s: Seq<char>, lo: nat, j: nat) -> nat
    decreases j,
{
    if j > lo && j <= s.len() && is_white_space(s[j - 1]) {
        end_white(s, lo, (j - 1) as nat)
    } else {
        j
    }
}

/// `s` without white space at its start and end, as `str::trim` gives it.
pub open spec fn trimmed(s: Seq<char>) -> Seq<char> {
    let lo = skip_white(s, 0);
    s.subrange(lo as int, end_white(s, lo, s.len()) as int)
}

proof fn lemma_skip_white(s: Seq<char>, i: nat)
    requires
        i <= s.len(),
    ensures
        i <= skip_white(s, i) <= s.len(),
    decreases s.len() - i,
{
    if i < s.len() && is_white_space(s[i as int]) {
        lemma_skip_white(s, i + 1);
    }
}

proof fn lemma_end_white(s: Seq<char>, lo: nat, j: nat)
    requires
        lo <= j <= s.len(),
    ensures
        lo <= end_white(s, lo, j) <= j,
    decreases j,
{
    if j > lo && j <= s.len() && is_white_space(s[j - 1]) {
        lemma_end_white(s, lo, (j - 1) as nat);
    }
}

/// `s` without leading and trailing white space.
pub fn trim(s: &str) -> (r: &str)
    ensures
        r@ == trimmed(s@),
{
    let n = s.unicode_len();
    let mut lo: usize = 0;
    while lo < n && is_white_space_exec(s.get_char(lo))
        invariant
            n == s@.len(),
            lo <= n,
            skip_white(s@, lo as nat) == skip_white(s@, 0),
        decreases n - lo,
    {
        lo = lo + 1;
    }
    let mut hi: usize = n;
    proof {
        lemma_skip_white(s@, 0);
    }
    while hi > lo && is_white_space_exec(s.get_char(hi - 1))
        invariant
            n == s@.len(),
            lo == skip_white(s@, 0),
            lo <= hi <= n,
            end_white(s@, lo as nat, hi as nat) == end_white(s@, lo as nat, n as nat),
        decreases hi,
    {
        hi = hi - 1;
    }
    s.substring_char(lo, hi)
}

/// The decimal numeral of `n`, without leading zeros ("0" for zero).
pub open spec fn decimal(n: nat) -> Seq<char>
    decreases n,
{
    if n < 10 {
        seq![digit_char(n)]
    } else {
        decimal(n / 10).push(digit_char(n % 10))
    }
}

pub open spec fn digit_char(d: nat) -> char {
    (('0' as nat) + d) as char
}

/// The decimal numeral of a number, as `to_string` writes it.
pub fn decimal_string(n: u16) -> (s: String)
    ensures
        s@ == decimal(n as nat),
    decreases n,
{
    if n < 10 {
        let mut s = String::new();
        push_char(&mut s, char_of_digit(n));
        assert(s@ =~= decimal(n as nat));
        s
    } else {
        let mut s = decimal_string(n / 10);
        push_char(&mut s, char_of_digit(n % 10));
        s
    }
}

fn char_of_digit(d: u16) -> (c: char)
    requires
        d < 10,
    ensures
        c == digit_char(d as nat),
{
    let digits = ['0', '1', '2', '3', '4', '5', '6', '7', '8', '9'];
    let c = digits[d as usize];
    assert(c == digit_char(d as nat)) by {
        assert(digits@ =~= seq!['0', '1', '2', '3', '4', '5', '6', '7', '8', '9']);
    }
    c
}

} // verus!
