//! The reading exercise: take a count and file names from the command line, and
//! from each file the first entries of the form `<number> | <name> `.
use vstd::prelude::*;

verus! {

/// Why the command line was refused.
#[derive(PartialEq, Eq, Structural, Clone, Copy, Debug)]
pub enum ArgError {
    /// "Please provide a number and a file name"
    MissingArguments,
    /// "The first arguement has to be a number between 0-255"
    BadNumber,
    /// "Please provide at least one file name"
    NoFiles,
}

impl ArgError {
    /// The message that the command line is refused with.
    pub fn message(&self) -> (m: String)
        ensures
            m@ == match *self {
                ArgError::MissingArguments => "Please provide a number and a file name"@,
                ArgError::BadNumber => "The first arguement has to be a number between 0-255"@,
                ArgError::NoFiles => "Please provide at least one file name"@,
            },
    {
        proof {
            broadcast use vstd::string::group_string_axioms;
        }
        match self {
            ArgError::MissingArguments => "Please provide a number and a file name".to_string(),
            ArgError::BadNumber => "The first arguement has to be a number between 0-255".to_string(),
            ArgError::NoFiles => "Please provide at least one file name".to_string(),
        }
    }
}

/// The value of a decimal numeral.
pub open spec fn digits_value(d: Seq<char>) -> nat
    decreases d.len(),
{
    if d.len() == 0 {
        0
    } else {
        digits_value(d.drop_last()) * 10 + (d.last() as nat - '0' as nat) as nat
    }
}

pub open spec fn all_digits(d: Seq<char>) -> bool {
    forall|i: int| 0 <= i < d.len() ==> '0' <= #[trigger] d[i] <= '9'
}

/// What `u8::from_str` accepts: an optional `+`, then at least one ASCII digit,
/// with a value of at most 255.
pub open spec fn u8_value(s: Seq<char>) -> Option<u8> {
    let body = if s.len() > 0 && s[0] == '+' { s.drop_first() } else { s };
    if body.len() > 0 && all_digits(body) && digits_value(body) <= 255 {
        Some(digits_value(body) as u8)
    } else {
        None
    }
}

proof fn lemma_digits_value_monotone(d: Seq<char>, i: int)
    requires
        all_digits(d),
        0 <= i <= d.len(),
    ensures
        digits_value(d.take(i)) <= digits_value(d),
    decreases d.len() - i,
{
    if i < d.len() {
        lemma_digits_value_monotone(d, i + 1);
        assert(d.take(i + 1).drop_last() =~= d.take(i));
    } else {
        assert(d.take(i) =~= d);
    }
}

/// Parses a count the way `u8::from_str` does.
pub fn parse_u8(s: &str) -> (r: Option<u8>)
    ensures
        r == u8_value(s@),
{
    let n = s.unicode_len();
    let mut start: usize = 0;
    if n > 0 && s.get_char(0) == '+' {
        start = 1;
    }
    let ghost body = if s@.len() > 0 && s@[0] == '+' { s@.drop_first() } else { s@ };
    assert(body =~= s@.subrange(start as int, n as int));
    if start == n {
        return None;
    }
    let mut value: u32 = 0;
    let mut i: usize = start;
    while i < n
        invariant
            start <= i <= n,
            n == s@.len(),
            body == s@.subrange(start as int, n as int),
            body == (if s@.len() > 0 && s@[0] == '+' { s@.drop_first() } else { s@ }),
            all_digits(body.take(i - start)),
            value == digits_value(body.take(i - start)),
            value <= 255,
        decreases n - i,
    {
        let c = s.get_char(i);
        assert(body[i - start] == c);
        assert(body.take(i - start + 1).drop_last() =~= body.take(i - start));
        if !('0' <= c && c <= '9') {
            assert(!all_digits(body));
            assert(u8_value(s@) is None);
            return None;
        }
        let d = (c as u32) - ('0' as u32);
        value = value * 10 + d;
        i = i + 1;
        if value > 255 {
            proof {
                if all_digits(body) {
                    lemma_digits_value_monotone(body, (i - start) as int);
                }
            }
            assert(u8_value(s@) is None);
            return None;
        }
    }
    assert(body.take(n - start) =~= body);
    Some(value as u8)
}

/// The count and the file names of the command line.
pub struct Reader {
    pub number: u8,
    pub files: Vec<String>,
}

/// The result of reading the command line `args` (the program's name first).
pub open spec fn build_spec(args: Seq<Seq<char>>) -> Result<(u8, Seq<Seq<char>>), ArgError> {
    if args.len() < 2 {
        Err(ArgError::MissingArguments)
    } else if u8_value(args[1]) is None {
        Err(ArgError::BadNumber)
    } else if args.len() == 2 {
        Err(ArgError::NoFiles)
    } else {
        Ok((u8_value(args[1]).unwrap(), args.skip(2)))
    }
}

pub open spec fn strings_view(v: Seq<String>) -> Seq<Seq<char>> {
    v.map_values(|s: String| s@)
}

impl Reader {
    /// Reads the count and the file names; the first argument is the program's name.
    pub fn build(args: &Vec<String>) -> (r: Result<Reader, ArgError>)
        ensures
            match build_spec(strings_view(args@)) {
                Ok((number, files)) => r is Ok && r->Ok_0.number == number && strings_view(r->Ok_0.files@) == files,
                Err(e) => r == Err::<Reader, ArgError>(e),
            },
    {
        if args.len() < 2 {
            return Err(ArgError::MissingArguments);
        }
        let number = match parse_u8(args[1].as_str()) {
            Some(num) => num,
            None => {
                return Err(ArgError::BadNumber);
            },
        };
        let mut files: Vec<String> = Vec::new();
        let mut i: usize = 2;
        while i < args.len()
            invariant
                2 <= i <= args@.len(),
                strings_view(files@) == strings_view(args@).subrange(2, i as int),
            decreases args@.len() - i,
        {
            let ghost before = files@;
            let a = args[i].clone();
            assert(a@ == args@[i as int]@);
            files.push(a);
            assert(files@ == before.push(a));
            assert(strings_view(files@) =~= strings_view(before).push(a@));
            assert(strings_view(files@) =~= strings_view(args@).subrange(2, i + 1));
            i = i + 1;
        }
        if files.len() == 0 {
            return Err(ArgError::NoFiles);
        }
        assert(strings_view(files@) =~= strings_view(args@).skip(2));
        Ok(Reader { number, files })
    }
}

/// The pattern of an entry: a number, white space, a bar, one white-space
/// character, a name of word characters and hyphens, and one white-space character.
pub const ENTRY_PATTERN: &'static str = "\\d+\\s+\\|\\s(\\w|-)+\\s";

/// Whether the `regex` crate compiles `pattern`.
pub uninterp spec fn regex_compiles(pattern: Seq<char>) -> bool;

/// The whole matches, in order, that the `regex` crate finds for `pattern` in
/// `text`: leftmost-first and without overlap.
pub uninterp spec fn regex_matches(pattern: Seq<char>, text: Seq<char>) -> Seq<Seq<char>>;

#[verifier::external_body]
/// `regex::Regex::new`, then `Regex::captures_iter` with the whole match of each
/// capture. Gives `None` exactly when the pattern does not compile; the matches
/// themselves are only named.
fn find_matches(pattern: &str, text: &str) -> (r: Option<Vec<String>>)
    ensures
        r is Some <==> regex_compiles(pattern@),
        r is Some ==> strings_view(r->Some_0@) == regex_matches(pattern@, text@),
{
    let re = regex::Regex::new(pattern).ok()?;
    let mut v: Vec<String> = Vec::new();
    for caps in re.captures_iter(text) {
        v.push(caps.get(0)?.as_str().to_string());
    }
    Some(v)
}

/// The first `number` of the matches `all`, or `None` when there are fewer.
pub fn first_entries(all: &Vec<String>, number: u8) -> (r: Option<Vec<String>>)
    ensures
        all@.len() >= number ==> r is Some && strings_view(r->Some_0@) == strings_view(all@).take(number as int),
        all@.len() < number ==> r is None,
{
    if all.len() < number as usize {
        return None;
    }
    let mut pokes: Vec<String> = Vec::new();
    let mut i: usize = 0;
    while i < number as usize
        invariant
            i <= number,
            number <= all@.len(),
            strings_view(pokes@) == strings_view(all@).take(i as int),
        decreases number - i,
    {
        let ghost before = pokes@;
        let a = all[i].clone();
        assert(a@ == all@[i as int]@);
        pokes.push(a);
        assert(pokes@ == before.push(a));
        assert(strings_view(pokes@) =~= strings_view(before).push(a@));
        assert(strings_view(pokes@) =~= strings_view(all@).take(i + 1));
        i = i + 1;
    }
    Some(pokes)
}

/// The first `number` entries of a file's text, or `None` when it holds fewer
/// (or, were the entry pattern refused by the `regex` crate, always `None`).
pub fn collect_entries(contents: &str, number: u8) -> (r: Option<Vec<String>>)
    ensures
        !regex_compiles(ENTRY_PATTERN@) ==> r is None,
        regex_compiles(ENTRY_PATTERN@) && regex_matches(ENTRY_PATTERN@, contents@).len() >= number ==> r is Some
            && strings_view(r->Some_0@) == regex_matches(ENTRY_PATTERN@, contents@).take(number as int),
        regex_compiles(ENTRY_PATTERN@) && regex_matches(ENTRY_PATTERN@, contents@).len() < number ==> r is None,
{
    match find_matches(ENTRY_PATTERN, contents) {
        Some(all) => first_entries(&all, number),
        None => None,
    }
}

} // verus!
