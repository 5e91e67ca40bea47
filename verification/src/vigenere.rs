//! A Vigenère cipher over ASCII letters: each letter is shifted by the
//! alphabet position of the next key letter; everything else passes through.
use vstd::prelude::*;
use std::collections::BTreeMap;
use vstd::string::StringSliceAdditionalSpecFns;
use vstd::string::StrSliceExecFns;
use crate::text::push_char;
use crate::scanner::{is_white_space, is_white_space_exec};

verus! {

broadcast use vstd::std_specs::btree::group_btree_axioms, vstd::laws_cmp::group_laws_cmp;

pub open spec fn is_upper(b: u8) -> bool {
    65 <= b <= 90
}

pub open spec fn is_lower(b: u8) -> bool {
    97 <= b <= 122
}

/// ASCII letters: `A` to `Z` and `a` to `z`.
pub open spec fn is_letter(b: u8) -> bool {
    is_upper(b) || is_lower(b)
}

/// The alphabet position of each ASCII letter, for both cases.
pub open spec fn letter_table() -> Map<u8, u8> {
    Map::new(|b: u8| is_letter(b), |b: u8| if is_upper(b) { (b - 65) as u8 } else { (b - 97) as u8 })
}

/// How many letters `w[..pos]` holds.
pub open spec fn letters_before(w: Seq<u8>, pos: nat) -> nat
    decreases pos,
{
    if pos == 0 || pos > w.len() {
        0
    } else {
        letters_before(w, (pos - 1) as nat) + if is_letter(w[pos - 1]) { 1nat } else { 0nat }
    }
}

/// The key byte used for the letter at `pos`: the key is used letter by letter, round and round.
pub open spec fn key_byte(w: Seq<u8>, k: Seq<u8>, pos: nat) -> u8 {
    k[(letters_before(w, pos) % k.len()) as int]
}

/// The letter `b` shifted by the table value of the key byte `kb`, in `b`'s case.
pub open spec fn shift(b: u8, kb: u8, table: Map<u8, u8>) -> char {
    let base: int = if b > 96 { 97 } else { 65 };
    ((base + (table[b] + table[kb]) % 26) as u8) as char
}

/// The table gives both the letter and its key byte, with a sum that fits in a byte.
pub open spec fn can_shift(w: Seq<u8>, k: Seq<u8>, table: Map<u8, u8>, pos: nat) -> bool {
    &&& k.len() > 0
    &&& table.contains_key(w[pos as int])
    &&& table.contains_key(key_byte(w, k, pos))
    &&& table[w[pos as int]] + table[key_byte(w, k, pos)] <= 255
}

/// The cipher text of the bytes `w` under key bytes `k`, one character per byte.
pub open spec fn cipher(w: Seq<u8>, k: Seq<u8>, table: Map<u8, u8>) -> Seq<char> {
    Seq::new(
        w.len(),
        |pos: int| if is_letter(w[pos]) { shift(w[pos], key_byte(w, k, pos as nat), table) } else { (w[pos]) as char },
    )
}

proof fn lemma_mod_succ(x: int, m: int)
    requires
        m > 0,
        x >= 0,
    ensures
        (x + 1) % m == if x % m + 1 < m { x % m + 1 } else { 0 },
{
    vstd::arithmetic::div_mod::lemma_fundamental_div_mod(x, m);
    let q = x / m;
    let r = x % m;
    assert(0 <= r < m) by {
        vstd::arithmetic::div_mod::lemma_mod_pos_bound(x, m);
    }
    assert(x == m * q + r);
    if r + 1 < m {
        assert(x + 1 == q * m + (r + 1)) by (nonlinear_arith)
            requires
                x == m * q + r,
        ;
        vstd::arithmetic::div_mod::lemma_fundamental_div_mod_converse(x + 1, m, q, r + 1);
    } else {
        assert(x + 1 == (q + 1) * m + 0) by (nonlinear_arith)
            requires
                x == m * q + r,
                r + 1 == m,
        ;
        vstd::arithmetic::div_mod::lemma_fundamental_div_mod_converse(x + 1, m, q + 1, 0);
    }
}

/// Whether `translate` can encipher `word` with `key`: every letter of the word and
/// the key byte it is paired with must be in the table.
pub fn translatable(key: &str, word: &str, table: &BTreeMap<u8, u8>) -> (b: bool)
    ensures
        b == forall|pos: nat| pos < word.spec_bytes().len() && is_letter(#[trigger] word.spec_bytes()[pos as int])
            ==> can_shift(word.spec_bytes(), key.spec_bytes(), table@, pos),
{
    let ghost w = word.spec_bytes();
    let ghost k = key.spec_bytes();
    let key_bytes = key.as_bytes();
    let keylen = key_bytes.len();
    let bytes = word.as_bytes();
    let mut i: usize = 0;
    let mut pos: usize = 0;
    while pos < bytes.len()
        invariant
            w == word.spec_bytes(),
            k == key.spec_bytes(),
            bytes@ == w,
            key_bytes@ == k,
            keylen == k.len(),
            pos <= w.len(),
            forall|p: nat| p < pos && is_letter(#[trigger] w[p as int]) ==> can_shift(w, k, table@, p),
            keylen > 0 ==> i < keylen,
            keylen > 0 ==> i == letters_before(w, pos as nat) % (keylen as nat),
            keylen == 0 ==> i == 0,
        decreases w.len() - pos,
    {
        let byte = bytes[pos];
        if !(byte < 65 || byte > 122 || (byte > 90 && byte < 97)) {
            assert(is_letter(w[pos as int]));
            if keylen == 0 {
                return false;
            }
            let key_char = key_bytes[i];
            assert(key_byte(w, k, pos as nat) == key_char);
            let a = match table.get(&byte) {
                Some(v) => *v,
                None => {
                    return false;
                },
            };
            let b = match table.get(&key_char) {
                Some(v) => *v,
                None => {
                    return false;
                },
            };
            if a as u16 + b as u16 > 255 {
                return false;
            }
            assert(can_shift(w, k, table@, pos as nat));
            i += 1;
            if i == keylen {
                i = 0;
            }
        }
        assert(letters_before(w, (pos + 1) as nat) == letters_before(w, pos as nat) + if is_letter(byte) { 1nat } else { 0nat });
        proof {
            if keylen > 0 && is_letter(byte) {
                lemma_mod_succ(letters_before(w, pos as nat) as int, keylen as int);
            }
        }
        pos += 1;
    }
    true
}

/// Enciphers `word` with `key`, looking letters up in `table`.
pub fn translate(key: &str, word: &str, table: &BTreeMap<u8, u8>) -> (result: String)
    requires
        forall|pos: nat| pos < word.spec_bytes().len() && is_letter(#[trigger] word.spec_bytes()[pos as int])
            ==> can_shift(word.spec_bytes(), key.spec_bytes(), table@, pos),
    ensures
        result@ == cipher(word.spec_bytes(), key.spec_bytes(), table@),
{
    let ghost w = word.spec_bytes();
    let ghost k = key.spec_bytes();
    let mut result = String::new();
    let key_bytes = key.as_bytes();
    let keylen = key_bytes.len();
    let bytes = word.as_bytes();
    let mut i: usize = 0;
    let mut pos: usize = 0;
    while pos < bytes.len()
        invariant
            w == word.spec_bytes(),
            k == key.spec_bytes(),
            bytes@ == w,
            key_bytes@ == k,
            keylen == k.len(),
            pos <= w.len(),
            forall|p: nat| p < w.len() && is_letter(#[trigger] w[p as int]) ==> can_shift(w, k, table@, p),
            keylen > 0 ==> i < keylen,
            keylen > 0 ==> i == letters_before(w, pos as nat) % (keylen as nat),
            keylen == 0 ==> i == 0,
            result@ == cipher(w, k, table@).take(pos as int),
        decreases w.len() - pos,
    {
        let byte = bytes[pos];
        let ghost before = result@;
        if byte < 65 || byte > 122 || (byte > 90 && byte < 97) {
            push_char(&mut result, byte as char);
        } else {
            assert(can_shift(w, k, table@, pos as nat));
            let key_char = key_bytes[i];
            let mut result_char: u8 = 65;
            if byte > 96 {
                result_char = 97;
            }
            let a = match table.get(&byte) {
                Some(v) => *v,
                None => {
                    assert(false);
                    0
                },
            };
            let b = match table.get(&key_char) {
                Some(v) => *v,
                None => {
                    assert(false);
                    0
                },
            };
            result_char += (a + b) % 26;
            push_char(&mut result, result_char as char);
            i += 1;
            if i == keylen {
                i = 0;
            }
        }
        assert(letters_before(w, (pos + 1) as nat) == letters_before(w, pos as nat) + if is_letter(byte) { 1nat } else { 0nat });
        proof {
            if keylen > 0 && is_letter(byte) {
                lemma_mod_succ(letters_before(w, pos as nat) as int, keylen as int);
            }
        }
        assert(cipher(w, k, table@).take(pos + 1) =~= before.push(cipher(w, k, table@)[pos as int]));
        pos += 1;
    }
    assert(cipher(w, k, table@).take(w.len() as int) =~= cipher(w, k, table@));
    result
}

/// The table of alphabet positions of the ASCII letters.
pub fn setup() -> (table: BTreeMap<u8, u8>)
    ensures
        table@ == letter_table(),
{
    let mut table: BTreeMap<u8, u8> = BTreeMap::new();
    let mut n: u8 = 0;
    while n <= 25
        invariant
            n <= 26,
            table@ == Map::new(
                |b: u8| (65 <= b < 65 + n) || (97 <= b < 97 + n),
                |b: u8| if is_upper(b) { (b - 65) as u8 } else { (b - 97) as u8 },
            ),
        decreases 26 - n,
    {
        table.insert(65 + n, n);
        table.insert(97 + n, n);
        n += 1;
        assert(table@ =~= Map::new(
            |b: u8| (65 <= b < 65 + n) || (97 <= b < 97 + n),
            |b: u8| if is_upper(b) { (b - 65) as u8 } else { (b - 97) as u8 },
        ));
    }
    assert(table@ =~= letter_table());
    table
}

/// Unicode's `Alphabetic` property of a character, as `char::is_alphabetic` gives it.
pub uninterp spec fn alphabetic(c: char) -> bool;

#[verifier::external_body]
/// `char::is_alphabetic`. Its result is named by `alphabetic`; for ASCII characters
/// its documentation says that exactly the letters `A`-`Z` and `a`-`z` are alphabetic.
fn is_alphabetic(c: char) -> (b: bool)
    ensures
        b == alphabetic(c),
        (c as u32) < 128 ==> (b <==> (('A' <= c && c <= 'Z') || ('a' <= c && c <= 'z'))),
{
    c.is_alphabetic()
}

/// The characters of `s` that are not white space, in order.
pub open spec fn without_white(s: Seq<char>) -> Seq<char>
    decreases s.len(),
{
    if s.len() == 0 {
        s
    } else if is_white_space(s.last()) {
        without_white(s.drop_last())
    } else {
        without_white(s.drop_last()).push(s.last())
    }
}

/// The key that a typed line gives: the line without its white space, when that
/// leaves at least one character and every character left is alphabetic.
pub open spec fn key_of_line(line: Seq<char>) -> Option<Seq<char>> {
    let k = without_white(line);
    if k.len() > 0 && forall|i: int| 0 <= i < k.len() ==> #[trigger] alphabetic(k[i]) {
        Some(k)
    } else {
        None
    }
}

/// Reads a new key from a typed line: white space is dropped, and the rest must be
/// a non-empty run of letters.
pub fn accept_key(line: &str) -> (r: Option<String>)
    ensures
        match key_of_line(line@) {
            Some(k) => r is Some && r->Some_0@ == k,
            None => r is None,
        },
{
    let n = line.unicode_len();
    let mut key = String::new();
    let mut all_letters = true;
    let mut i: usize = 0;
    proof {
        broadcast use vstd::string::group_string_axioms;
    }
    assert(key@ =~= without_white(line@.take(0)));
    while i < n
        invariant
            n == line@.len(),
            i <= n,
            key@ == without_white(line@.take(i as int)),
            all_letters <==> forall|j: int| 0 <= j < key@.len() ==> #[trigger] alphabetic(key@[j]),
        decreases n - i,
    {
        let c = line.get_char(i);
        assert(line@.take(i + 1).drop_last() =~= line@.take(i as int));
        assert(line@.take(i + 1).last() == c);
        if !is_white_space_exec(c) {
            let ghost before = key@;
            let a = is_alphabetic(c);
            push_char(&mut key, c);
            assert(key@ == before.push(c));
            if !a {
                all_letters = false;
            }
            assert(all_letters <==> forall|j: int| 0 <= j < key@.len() ==> #[trigger] alphabetic(key@[j])) by {
                if all_letters {
                    assert forall|j: int| 0 <= j < key@.len() implies #[trigger] alphabetic(key@[j]) by {
                        if j < before.len() {
                            assert(key@[j] == before[j]);
                        }
                    }
                } else if a {
                    let j = choose|j: int| 0 <= j < before.len() && !alphabetic(#[trigger] before[j]);
                    assert(key@[j] == before[j]);
                } else {
                    assert(!alphabetic(key@[before.len() as int]));
                }
            }
        }
        i = i + 1;
    }
    assert(line@.take(n as int) =~= line@);
    if key.unicode_len() > 0 && all_letters {
        Some(key)
    } else {
        None
    }
}

} // verus!
