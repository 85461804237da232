//! Command-line options: the output format and its (case-insensitive)
//! spelling.

use vstd::prelude::*;

verus! {

use vstd::string::StrSliceExecFns;
use vstd::string::StringExecFns;

/// The command-line options the program understands.
#[derive(Debug)]
pub struct Args {
    /// print the version and quit
    pub version: bool,
    /// requested output format
    pub format: Option<Format>,
}

/// The output document format.
#[derive(Clone, Copy, Debug, PartialEq, Eq, Structural)]
pub enum Format {
    Svg,
    Html,
}

/// An upper-case ASCII letter mapped to its lower-case form; any other
/// character kept as it is.
pub open spec fn ascii_lower(c: char) -> char {
    if 65 <= c as u32 <= 90 {
        (((c as u32) + 32) as u8) as char
    } else {
        c
    }
}

/// The text with its ASCII letters lowered.
pub open spec fn lower(s: Seq<char>) -> Seq<char> {
    s.map_values(|c: char| ascii_lower(c))
}

/// Which format a piece of text names, ignoring ASCII case: `s` or `svg`
/// for SVG, `h` or `html` for HTML, anything else nothing.
pub open spec fn format_of(s: Seq<char>) -> Option<Format> {
    if lower(s) == "s"@ || lower(s) == "svg"@ {
        Option::Some(Format::Svg)
    } else if lower(s) == "h"@ || lower(s) == "html"@ {
        Option::Some(Format::Html)
    } else {
        Option::None
    }
}

/// Whether `s`, with its ASCII letters lowered, spells exactly `w`.
#[verifier::loop_isolation(false)]
fn lower_matches(s: &str, w: &str) -> (r: bool)
    ensures
        r == (lower(s@) == w@),
{
    let n = s.unicode_len();
    let m = w.unicode_len();
    if n != m {
        proof {
            assert(lower(s@).len() == s@.len());
        }
        return false;
    }
    let mut i: usize = 0;
    while i < n
        invariant
            0 <= i <= n,
            n == s@.len() && n == w@.len(),
            forall|j: int| 0 <= j < i ==> ascii_lower(#[trigger] s@[j]) == w@[j],
        decreases n - i,
    {
        let c = s.get_char(i);
        let wc = w.get_char(i);
        let cv = c as u32;
        let wv = wc as u32;
        let lv: u32 = if 65 <= cv && cv <= 90 {
            cv + 32
        } else {
            cv
        };
        proof {
            assert(ascii_lower(c) as u32 == lv);
        }
        if lv != wv {
            proof {
                assert(ascii_lower(s@[i as int]) != w@[i as int]);
                assert(lower(s@)[i as int] != w@[i as int]);
            }
            return false;
        }
        i = i + 1;
    }
    proof {
        assert(lower(s@) =~= w@);
    }
    true
}

impl Format {
    /// Read a format name, ignoring ASCII case; unknown names are
    /// rejected.
    pub fn parse(s: &str) -> (r: Result<Format, String>)
        ensures
            r matches Ok(f) ==> format_of(s@) == Option::Some(f),
            r is Ok <==> format_of(s@) is Some,
    {
        if lower_matches(s, "s") || lower_matches(s, "svg") {
            Ok(Format::Svg)
        } else if lower_matches(s, "h") || lower_matches(s, "html") {
            Ok(Format::Html)
        } else {
            Err(String::from_str("unrecognized format"))
        }
    }
}

impl core::str::FromStr for Format {
    type Err = String;

    fn from_str(s: &str) -> Result<Format, String> {
        Format::parse(s)
    }
}

} // verus!
