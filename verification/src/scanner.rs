//! The scanner of the calculator language: characters to tokens.
use vstd::prelude::*;
use crate::token::{Token, token_view};

verus! {

/// A number literal as the scanner hands it out: the bytes of its characters.
pub type Literal = Vec<u8>;

/// Decimal digits `0` to `9`.
pub open spec fn is_digit(c: char) -> bool {
    '0' <= c && c <= '9'
}

/// The characters a number literal is made of.
pub open spec fn is_num_char(c: char) -> bool {
    is_digit(c) || c == '.'
}

/// Unicode's `White_Space` property.
pub open spec fn is_white_space(c: char) -> bool {
    let u = c as u32;
    ||| 0x09 <= u <= 0x0d
    ||| u == 0x20
    ||| u == 0x85
    ||| u == 0xa0
    ||| u == 0x1680
    ||| 0x2000 <= u <= 0x200a
    ||| u == 0x2028
    ||| u == 0x2029
    ||| u == 0x202f
    ||| u == 0x205f
    ||| u == 0x3000
}

/// The token that a character spells on its own, if any.
pub open spec fn punct<N>(c: char) -> Option<Token<N>> {
    if c == '(' {
        Some(Token::LeftPar)
    } else if c == ')' {
        Some(Token::RightPar)
    } else if c == '-' {
        Some(Token::Minus)
    } else if c == '+' {
        Some(Token::Plus)
    } else if c == '>' {
        Some(Token::Greater)
    } else if c == '~' {
        Some(Token::BitFlip)
    } else if c == '<' {
        Some(Token::Less)
    } else if c == '=' {
        Some(Token::Equal)
    } else if c == '*' || c == 'x' {
        Some(Token::Mult)
    } else if c == '/' {
        Some(Token::Div)
    } else if c == '^' {
        Some(Token::Pow)
    } else if c == 'A' || c == 'a' {
        Some(Token::Ans)
    } else {
        None
    }
}

/// The byte that stands for an ASCII character.
pub open spec fn byte_of(c: char) -> u8 {
    (c as u32) as u8
}

/// The end of the run of number characters that starts at `i`.
pub open spec fn num_end(s: Seq<char>, i: nat) -> nat
    decreases s.len() - i,
{
    if i < s.len() && is_num_char(s[i as int]) {
        num_end(s, i + 1)
    } else {
        i
    }
}

pub proof fn lemma_num_end(s: Seq<char>, i: nat)
    ensures
        i <= num_end(s, i),
        i <= s.len() ==> num_end(s, i) <= s.len(),
        forall|k: int| i <= k < num_end(s, i) ==> is_num_char(#[trigger] s[k]),
        num_end(s, i) < s.len() ==> !is_num_char(s[num_end(s, i) as int]),
    decreases s.len() - i,
{
    if i < s.len() && is_num_char(s[i as int]) {
        lemma_num_end(s, i + 1);
    }
}

/// The bytes of the characters `s[i..j]`.
pub open spec fn lexeme(s: Seq<char>, i: nat, j: nat) -> Seq<u8> {
    s.subrange(i as int, j as int).map_values(|c: char| byte_of(c))
}

/// How many `.` bytes a literal holds.
pub open spec fn dot_count(b: Seq<u8>) -> nat
    decreases b.len(),
{
    if b.len() == 0 {
        0
    } else {
        dot_count(b.drop_last()) + if b.last() == 46u8 { 1nat } else { 0nat }
    }
}

/// A literal is accepted when it does not end in `.` and holds at most one `.`.
pub open spec fn valid_literal(b: Seq<u8>) -> bool {
    b.last() != 46u8 && dot_count(b) <= 1
}

/// What one step of the scanner reads from position `i`: the token, or `None`
/// for an illegal character or literal, and the position after it.
pub open spec fn scan_from(s: Seq<char>, i: nat) -> (Option<Token<Seq<u8>>>, nat)
    decreases s.len() - i,
{
    if i >= s.len() {
        (Some(Token::EOF), i)
    } else {
        let c = s[i as int];
        if punct::<Seq<u8>>(c) is Some {
            (punct(c), i + 1)
        } else if is_num_char(c) {
            let j = num_end(s, i);
            if valid_literal(lexeme(s, i, j)) {
                (Some(Token::Num(lexeme(s, i, j))), j)
            } else {
                (None, j)
            }
        } else if is_white_space(c) {
            scan_from(s, i + 1)
        } else {
            (None, i + 1)
        }
    }
}

/// The tokens of `s[i..]`, up to the end of the input (no end marker), or
/// `None` where it holds an illegal character or literal.
pub open spec fn lex_from(s: Seq<char>, i: nat) -> Option<Seq<Token<Seq<u8>>>>
    decreases s.len() - i,
{
    if i >= s.len() {
        Some(seq![])
    } else {
        let c = s[i as int];
        if punct::<Seq<u8>>(c) is Some {
            match lex_from(s, i + 1) {
                Some(rest) => Some(seq![punct(c).unwrap()] + rest),
                None => None,
            }
        } else if is_num_char(c) {
            let j = num_end(s, i + 1);
            proof {
                lemma_num_end(s, i + 1);
            }
            if valid_literal(lexeme(s, i, j)) {
                match lex_from(s, j) {
                    Some(rest) => Some(seq![Token::Num(lexeme(s, i, j))] + rest),
                    None => None,
                }
            } else {
                None
            }
        } else if is_white_space(c) {
            lex_from(s, i + 1)
        } else {
            None
        }
    }
}

/// The tokens of a whole input, without an end marker.
pub open spec fn lex(s: Seq<char>) -> Option<Seq<Token<Seq<u8>>>> {
    lex_from(s, 0)
}

pub open spec fn tokens_view(v: Seq<Token<Literal>>) -> Seq<Token<Seq<u8>>> {
    v.map_values(|t: Token<Literal>| token_view(t))
}

proof fn lemma_num_end_step(s: Seq<char>, i: nat)
    requires
        i < s.len(),
        is_num_char(s[i as int]),
    ensures
        num_end(s, i) == num_end(s, i + 1),
{
}

/// One step of the scanner agrees with the tokens of the rest of the input.
proof fn lemma_scan_lex(s: Seq<char>, i: nat)
    ensures
        ({
            let (t, j) = scan_from(s, i);
            match t {
                None => lex_from(s, i) is None,
                Some(Token::EOF) => lex_from(s, i) == Some(Seq::<Token<Seq<u8>>>::empty()),
                Some(tok) => j > i && lex_from(s, i) == match lex_from(s, j) {
                    Some(rest) => Some(seq![tok] + rest),
                    None => None,
                },
            }
        }),
    decreases s.len() - i,
{
    if i < s.len() {
        let c = s[i as int];
        if punct::<Seq<u8>>(c) is Some {
        } else if is_num_char(c) {
            lemma_num_end_step(s, i);
            lemma_num_end(s, i + 1);
        } else if is_white_space(c) {
            lemma_scan_lex(s, i + 1);
        }
    }
}

/// Each punctuation character is read as the token it spells, wherever it stands:
/// `(` and `)` are the parentheses; `+`, `-`, `*` (or `x`), `/` and `^` the
/// arithmetic operators; `<`, `>` and `=` the relations; `~` flips bits; `A` or `a`
/// is the previous answer. The token is followed by the tokens of the rest.
pub proof fn lemma_punctuation_spells_its_token(s: Seq<char>, i: nat, t: Token<Seq<u8>>)
    requires
        i < s.len(),
        (s[i as int] == '(' && t == Token::<Seq<u8>>::LeftPar) || (s[i as int] == ')' && t == Token::<Seq<u8>>::RightPar)
            || (s[i as int] == '+' && t == Token::<Seq<u8>>::Plus) || (s[i as int] == '-' && t == Token::<Seq<u8>>::Minus)
            || (s[i as int] == '*' && t == Token::<Seq<u8>>::Mult) || (s[i as int] == 'x' && t == Token::<Seq<u8>>::Mult)
            || (s[i as int] == '/' && t == Token::<Seq<u8>>::Div) || (s[i as int] == '^' && t == Token::<Seq<u8>>::Pow)
            || (s[i as int] == '<' && t == Token::<Seq<u8>>::Less) || (s[i as int] == '>' && t == Token::<Seq<u8>>::Greater)
            || (s[i as int] == '=' && t == Token::<Seq<u8>>::Equal) || (s[i as int] == '~' && t == Token::<Seq<u8>>::BitFlip)
            || (s[i as int] == 'A' && t == Token::<Seq<u8>>::Ans) || (s[i as int] == 'a' && t == Token::<Seq<u8>>::Ans),
    ensures
        scan_from(s, i) == (Some(t), i + 1),
        lex_from(s, i) == match lex_from(s, i + 1) {
            Some(rest) => Some(seq![t] + rest),
            None => None,
        },
{
}

/// Where the characters `s[i..j]` are all digits and the run ends at `j`, the run
/// ends there for every position inside it.
proof fn lemma_digit_run_end(s: Seq<char>, k: nat, j: nat)
    requires
        k <= j <= s.len(),
        forall|m: int| k <= m < j ==> is_digit(#[trigger] s[m]),
        j == s.len() || !is_num_char(s[j as int]),
    ensures
        num_end(s, k) == j,
    decreases j - k,
{
    if k < j {
        lemma_digit_run_end(s, k + 1, j);
    }
}

/// A literal none of whose bytes is a `.` holds no `.`.
proof fn lemma_no_dots(b: Seq<u8>)
    requires
        forall|m: int| 0 <= m < b.len() ==> b[m] != 46u8,
    ensures
        dot_count(b) == 0,
    decreases b.len(),
{
    if b.len() > 0 {
        lemma_no_dots(b.drop_last());
    }
}

/// A run of digits is read as one number literal made of exactly their bytes,
/// followed by the tokens of the rest.
pub proof fn lemma_digits_spell_a_number(s: Seq<char>, i: nat, j: nat)
    requires
        i < j <= s.len(),
        forall|m: int| i <= m < j ==> is_digit(#[trigger] s[m]),
        j == s.len() || !is_num_char(s[j as int]),
    ensures
        lex_from(s, i) == match lex_from(s, j) {
            Some(rest) => Some(seq![Token::Num(s.subrange(i as int, j as int).map_values(|c: char| (c as u32) as u8))] + rest),
            None => None,
        },
{
    lemma_digit_run_end(s, i + 1, j);
    let b = lexeme(s, i, j);
    assert forall|m: int| 0 <= m < b.len() implies b[m] != 46u8 by {
        let c = s[i + m];
        assert(is_digit(c));
        assert(b[m] == byte_of(c));
        assert(48 <= (c as u32) <= 57);
    }
    lemma_no_dots(b);
    assert(valid_literal(b));
    assert(b =~= s.subrange(i as int, j as int).map_values(|c: char| (c as u32) as u8));
}

/// Reads characters and collects the tokens they spell.
pub struct Scanner {
    pub chars: Vec<char>,
    pub pos: usize,
    pub num_buffer: Vec<u8>,
    pub tokens: Vec<Token<Literal>>,
}

fn is_num_char_exec(c: char) -> (b: bool)
    ensures
        b == is_num_char(c),
{
    ('0' <= c && c <= '9') || c == '.'
}

/// Unicode's `White_Space` property, as `char::is_whitespace` gives it.
pub fn is_white_space_exec(c: char) -> (b: bool)
    ensures
        b == is_white_space(c),
{
    let u = c as u32;
    (0x09 <= u && u <= 0x0d) || u == 0x20 || u == 0x85 || u == 0xa0 || u == 0x1680 || (0x2000 <= u
        && u <= 0x200a) || u == 0x2028 || u == 0x2029 || u == 0x202f || u == 0x205f || u == 0x3000
}

fn chars_of(s: &str) -> (r: Vec<char>)
    ensures
        r@ == s@,
{
    let mut r: Vec<char> = Vec::new();
    for c in it: s.chars()
        invariant
            it.seq() == s@,
            r@ == s@.take(it.index() as int),
    {
        r.push(c);
    }
    assert(r@ == s@.take(s@.len() as int));
    r
}

fn count_dots(b: &Vec<u8>) -> (n: usize)
    ensures
        n == dot_count(b@),
{
    let mut n: usize = 0;
    let mut i: usize = 0;
    while i < b.len()
        invariant
            i <= b.len(),
            n == dot_count(b@.take(i as int)),
            n <= i,
        decreases b.len() - i,
    {
        assert(b@.take(i + 1).drop_last() == b@.take(i as int));
        if b[i] == 46u8 {
            n = n + 1;
        }
        i = i + 1;
    }
    assert(b@.take(b.len() as int) == b@);
    n
}

impl Scanner {
    pub closed spec fn input(&self) -> Seq<char> {
        self.chars@
    }

    pub closed spec fn position(&self) -> nat {
        self.pos as nat
    }

    closed spec fn ready(&self) -> bool {
        &&& self.pos <= self.chars.len()
        &&& self.num_buffer@.len() == 0
    }

    fn advance(&mut self) -> (c: Option<char>)
        requires
            old(self).pos <= old(self).chars.len(),
        ensures
            final(self).chars@ == old(self).chars@,
            final(self).num_buffer@ == old(self).num_buffer@,
            final(self).tokens@ == old(self).tokens@,
            old(self).pos < old(self).chars.len() ==> c == Some(old(self).chars@[old(self).pos as int])
                && final(self).pos == old(self).pos + 1,
            old(self).pos >= old(self).chars.len() ==> c is None && final(self).pos == old(self).pos,
    {
        if self.pos < self.chars.len() {
            let c = self.chars[self.pos];
            self.pos = self.pos + 1;
            Some(c)
        } else {
            None
        }
    }

    /// Reads one token; skips white space before it.
    fn scan(&mut self) -> (t: Option<Token<Literal>>)
        requires
            old(self).ready(),
        ensures
            final(self).chars@ == old(self).chars@,
            final(self).tokens@ == old(self).tokens@,
            final(self).pos <= final(self).chars.len(),
            scan_from(old(self).chars@, old(self).pos as nat) == (
            match t {
                Some(tok) => Some(token_view(tok)),
                None => None,
            },
            final(self).pos as nat,
            ),
            t is Some ==> final(self).ready(),
    {
        let ghost s = self.chars@;
        loop
            invariant
                self.chars@ == s,
                s == old(self).chars@,
                self.tokens@ == old(self).tokens@,
                self.ready(),
                scan_from(s, old(self).pos as nat) == scan_from(s, self.pos as nat),
            decreases s.len() - self.pos,
        {
            let ghost start = self.pos as nat;
            match self.advance() {
                None => {
                    return Some(Token::EOF);
                },
                Some(c) => {
                    if c == '(' {
                        return Some(Token::LeftPar);
                    } else if c == ')' {
                        return Some(Token::RightPar);
                    } else if c == '-' {
                        return Some(Token::Minus);
                    } else if c == '+' {
                        return Some(Token::Plus);
                    } else if c == '>' {
                        return Some(Token::Greater);
                    } else if c == '~' {
                        return Some(Token::BitFlip);
                    } else if c == '<' {
                        return Some(Token::Less);
                    } else if c == '=' {
                        return Some(Token::Equal);
                    } else if c == '*' || c == 'x' {
                        return Some(Token::Mult);
                    } else if c == '/' {
                        return Some(Token::Div);
                    } else if c == '^' {
                        return Some(Token::Pow);
                    } else if c == 'A' || c == 'a' {
                        return Some(Token::Ans);
                    } else if is_num_char_exec(c) {
                        return self.scan_number(c);
                    } else if is_white_space_exec(c) {
                        // skip it and read on
                    } else {
                        return None;
                    }
                },
            }
        }
    }

    /// Reads the rest of a number literal whose first character `c` was just read.
    fn scan_number(&mut self, c: char) -> (t: Option<Token<Literal>>)
        requires
            old(self).ready(),
            old(self).pos >= 1,
            old(self).chars@[old(self).pos - 1] == c,
            is_num_char(c),
        ensures
            final(self).chars@ == old(self).chars@,
            final(self).tokens@ == old(self).tokens@,
            final(self).pos <= final(self).chars.len(),
            scan_from(old(self).chars@, (old(self).pos - 1) as nat) == (
            match t {
                Some(tok) => Some(token_view(tok)),
                None => None,
            },
            final(self).pos as nat,
            ),
            t is Some ==> final(self).ready(),
    {
        let ghost s = self.chars@;
        let ghost i = (self.pos - 1) as nat;
        proof {
            lemma_num_end_step(s, i);
            lemma_num_end(s, i + 1);
        }
        self.num_buffer.push((c as u32) as u8);
        while self.pos < self.chars.len() && is_num_char_exec(self.chars[self.pos])
            invariant
                self.chars@ == s,
                s == old(self).chars@,
                self.tokens@ == old(self).tokens@,
                i < self.pos <= s.len(),
                self.pos <= num_end(s, i),
                num_end(s, i) <= s.len(),
                forall|k: int| i <= k < num_end(s, i) ==> is_num_char(#[trigger] s[k]),
                num_end(s, i) < s.len() ==> !is_num_char(s[num_end(s, i) as int]),
                self.num_buffer@ == lexeme(s, i, self.pos as nat),
            decreases s.len() - self.pos,
        {
            let d = self.chars[self.pos];
            self.num_buffer.push((d as u32) as u8);
            self.pos = self.pos + 1;
            assert(lexeme(s, i, self.pos as nat) == lexeme(s, i, (self.pos - 1) as nat).push(
                byte_of(d),
            ));
        }
        assert(self.pos == num_end(s, i));
        let last = self.num_buffer[self.num_buffer.len() - 1];
        let dots = count_dots(&self.num_buffer);
        if last == 46u8 || dots > 1 {
            return None;
        }
        let lit = self.num_buffer.clone();
        assert(lit@ == self.num_buffer@);
        self.num_buffer.clear();
        Some(Token::Num(lit))
    }

    fn add_token(&mut self, t: Token<Literal>)
        ensures
            final(self).tokens@ == old(self).tokens@.push(t),
            final(self).chars@ == old(self).chars@,
            final(self).pos == old(self).pos,
            final(self).num_buffer@ == old(self).num_buffer@,
    {
        self.tokens.push(t);
    }

    /// Scans to the end of the input. With `keep_eof`, the end marker is kept
    /// as the last token.
    fn scan_all(&mut self, keep_eof: bool) -> (r: Result<(), String>)
        requires
            old(self).ready(),
        ensures
            final(self).chars@ == old(self).chars@,
            ({
                let s = old(self).chars@;
                let before = tokens_view(old(self).tokens@);
                match lex_from(s, old(self).pos as nat) {
                    Some(rest) => r is Ok && tokens_view(final(self).tokens@) == before + rest + if keep_eof {
                        seq![Token::EOF]
                    } else {
                        Seq::empty()
                    },
                    None => r is Err && r->Err_0@ == "Illegal token"@,
                }
            }),
    {
        let ghost s = self.chars@;
        let ghost before = tokens_view(self.tokens@);
        let ghost all = lex_from(s, self.pos as nat);
        loop
            invariant
                self.chars@ == s,
                s == old(self).chars@,
                self.ready(),
                before == tokens_view(old(self).tokens@),
                all == lex_from(s, old(self).pos as nat),
                tokens_view(self.tokens@).len() >= before.len(),
                tokens_view(self.tokens@).take(before.len() as int) == before,
                all == match lex_from(s, self.pos as nat) {
                    Some(rest) => Some(tokens_view(self.tokens@).skip(before.len() as int) + rest),
                    None => None,
                },
            decreases s.len() - self.pos,
        {
            let ghost p = self.pos as nat;
            let ghost tv = tokens_view(self.tokens@);
            proof {
                lemma_scan_lex(s, p);
            }
            match self.scan() {
                None => {
                    let msg = "Illegal token".to_string();
                    proof {
                        broadcast use vstd::string::group_string_axioms;
                    }
                    return Err(msg);
                },
                Some(Token::EOF) => {
                    if keep_eof {
                        self.add_token(Token::EOF);
                        assert(tokens_view(self.tokens@) == tv.push(Token::EOF));
                    }
                    return Ok(());
                },
                Some(t) => {
                    self.add_token(t);
                    assert(tokens_view(self.tokens@) == tv.push(token_view(t)));
                    assert(tokens_view(self.tokens@).skip(before.len() as int) == tv.skip(
                        before.len() as int,
                    ) + seq![token_view(t)]);
                },
            }
        }
    }

    fn from_chars(source: &str) -> (sc: Scanner)
        ensures
            sc.ready(),
            sc.pos == 0,
            sc.chars@ == source@,
            sc.tokens@.len() == 0,
    {
        Scanner { chars: chars_of(source), pos: 0, num_buffer: Vec::new(), tokens: Vec::new() }
    }

    /// Scans all of `source`; the tokens end with `Token::EOF`.
    pub fn new(source: &String) -> (r: Result<Scanner, String>)
        ensures
            match lex(source@) {
                Some(toks) => r is Ok && tokens_view(r->Ok_0.tokens@) == toks.push(Token::EOF),
                None => r is Err && r->Err_0@ == "Illegal token"@,
            },
    {
        let mut scanner = Scanner::from_chars(source.as_str());
        match scanner.scan_all(true) {
            Ok(()) => Ok(scanner),
            Err(e) => Err(e),
        }
    }

    /// Scans all of `source`; the tokens hold no end marker.
    pub fn new_without_eof(source: &String) -> (r: Result<Scanner, String>)
        ensures
            match lex(source@) {
                Some(toks) => r is Ok && tokens_view(r->Ok_0.tokens@) == toks,
                None => r is Err && r->Err_0@ == "Illegal token"@,
            },
    {
        let mut scanner = Scanner::from_chars(source.as_str());
        match scanner.scan_all(false) {
            Ok(()) => Ok(scanner),
            Err(e) => Err(e),
        }
    }
}

} // verus!
