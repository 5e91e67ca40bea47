//! The recursive-archive exercise: the archive it writes, given in hexadecimal,
//! and the paths that each unpacking round works with.
use vstd::prelude::*;
use vstd::string::{StringSliceAdditionalSpecFns, StringExecFns};
use vstd::utf8::encode_utf8;
use crate::text::{trim, trimmed, decimal, decimal_string};

verus! {

/// Why a hexadecimal text did not decode, as the `hex` crate reports it.
#[derive(PartialEq, Eq, Structural, Clone, Copy, Debug)]
pub enum HexError {
    InvalidHexCharacter { c: char, index: usize },
    OddLength,
    InvalidStringLength,
}

/// The value of a hexadecimal digit byte.
pub open spec fn hex_val(b: u8) -> Option<u8> {
    if 65 <= b <= 70 {
        Some((b - 55) as u8)
    } else if 97 <= b <= 102 {
        Some((b - 87) as u8)
    } else if 48 <= b <= 57 {
        Some((b - 48) as u8)
    } else {
        None
    }
}

/// The first position from `i` on that holds no hexadecimal digit.
pub open spec fn first_bad_from(s: Seq<u8>, i: nat) -> Option<nat>
    decreases s.len() - i,
{
    if i >= s.len() {
        None
    } else if hex_val(s[i as int]) is None {
        Some(i)
    } else {
        first_bad_from(s, i + 1)
    }
}

/// What `hex::decode` gives for bytes `s`: two digits per byte, high digit first.
pub open spec fn hex_decode(s: Seq<u8>) -> Result<Seq<u8>, HexError> {
    if s.len() % 2 != 0 {
        Err(HexError::OddLength)
    } else {
        match first_bad_from(s, 0) {
            Some(i) => Err(HexError::InvalidHexCharacter { c: s[i as int] as char, index: i as usize }),
            None => Ok(
                Seq::new(
                    s.len() / 2,
                    |i: int| (hex_val(s[2 * i]).unwrap() * 16 + hex_val(s[2 * i + 1]).unwrap()) as u8,
                ),
            ),
        }
    }
}

#[verifier::external_body]
/// `hex::decode`: fails on an odd length, then on the first byte that is no
/// hexadecimal digit (naming it and its position); otherwise gives one byte per
/// pair of digits, high digit first.
fn decode_hex(data: &[u8]) -> (r: Result<Vec<u8>, HexError>)
    ensures
        match hex_decode(data@) {
            Ok(v) => r is Ok && r->Ok_0@ == v,
            Err(e) => r == Err::<Vec<u8>, HexError>(e),
        },
{
    match hex::decode(data) {
        Ok(v) => Ok(v),
        Err(hex::FromHexError::InvalidHexCharacter { c, index }) => Err(HexError::InvalidHexCharacter { c, index }),
        Err(hex::FromHexError::OddLength) => Err(HexError::OddLength),
        Err(hex::FromHexError::InvalidStringLength) => Err(HexError::InvalidStringLength),
    }
}

/// The archive, in hexadecimal.
pub const ZIP_HEX: &'static str = "504b03041400000008000803643cf9f4896448010000b801000007000000722f722e7a6970002500daff504b03041400000008000803643cf9f4896448010000b801000007000000722f722e7a6970002f00d0ff002500daff504b03041400000008000803643cf9f4896448010000b801000007000000722f722e7a6970002f00d0ffc2548e5739000500faffc2548e5739000500faff000500faff001400ebffc2548e5739000500faff000500faff001400ebff428821c400001400ebff428821c400001400ebff428821c400001400ebff428821c400001400ebff428821c400000000ffff000000ffff003400cbff428821c400000000ffff000000ffff003400cbff42e8215e0f000000ffff0af066641261c015dce8a048bf48af2ab320c09b950dc46704425306060640000600f9ff6d010000000042e8215e0f000000ffff0af066641261c015dce8a048bf48af2ab320c09b950dc46704425306060640000600f9ff6d0100000000504b010214001400000008000803643cf9f4896448010000b8010000070000000000000000000000000000000000722f722e7a6970504b05060000000001000100350000006d0100000000";

/// Decodes a hexadecimal text, after trimming its white space.
pub fn decode_trimmed(text: &str) -> (r: Result<Vec<u8>, HexError>)
    ensures
        match hex_decode(encode_utf8(trimmed(text@))) {
            Ok(v) => r is Ok && r->Ok_0@ == v,
            Err(e) => r == Err::<Vec<u8>, HexError>(e),
        },
{
    let t = trim(text);
    decode_hex(t.as_bytes())
}

/// The bytes of the archive that the exercise writes to `r.zip`.
pub fn zip_archive() -> (r: Result<Vec<u8>, HexError>)
    ensures
        match hex_decode(encode_utf8(trimmed(ZIP_HEX@))) {
            Ok(v) => r is Ok && r->Ok_0@ == v,
            Err(e) => r == Err::<Vec<u8>, HexError>(e),
        },
{
    decode_trimmed(ZIP_HEX)
}

/// The paths of one unpacking round in folder `path`, with separator `sep`.
pub struct UnzipRound {
    /// `path`, `sep`, `r` and the round's number: where this round unpacks to.
    pub new_folder: String,
    /// The archive in `path`.
    pub archive: String,
    /// The folder that the archive holds, inside `new_folder`.
    pub inner_folder: String,
    /// The archive inside `inner_folder`.
    pub inner_archive: String,
    /// Where that archive is moved to: into `new_folder`.
    pub moved_archive: String,
}

fn joined(a: &str, b: &str, c: &str) -> (s: String)
    ensures
        s@ == a@ + b@ + c@,
{
    let mut s = String::from_str(a);
    s.append(b);
    s.append(c);
    s
}

/// The paths of the round numbered `num` in folder `path`.
pub fn unzip_round(path: &str, num: u16, sep: &str) -> (u: UnzipRound)
    ensures
        u.new_folder@ == path@ + sep@ + "r"@ + decimal(num as nat),
        u.archive@ == path@ + sep@ + "r.zip"@,
        u.inner_folder@ == u.new_folder@ + sep@ + "r"@,
        u.inner_archive@ == u.inner_folder@ + sep@ + "r.zip"@,
        u.moved_archive@ == u.new_folder@ + sep@ + "r.zip"@,
{
    let mut new_folder = joined(path, sep, "r");
    let digits = decimal_string(num);
    new_folder.append(digits.as_str());
    let archive = joined(path, sep, "r.zip");
    let inner_folder = joined(new_folder.as_str(), sep, "r");
    let inner_archive = joined(inner_folder.as_str(), sep, "r.zip");
    let moved_archive = joined(new_folder.as_str(), sep, "r.zip");
    UnzipRound { new_folder, archive, inner_folder, inner_archive, moved_archive }
}

} // verus!
