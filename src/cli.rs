//! Names of the generation modes as a command line gives them.
use vstd::prelude::*;
use vstd::string::StringExecFns;

verus! {

/// A generation mode named on the command line.
#[derive(Debug, Clone, Copy, PartialEq, Eq, Structural)]
pub enum ModeArg {
    Classic,
    Marble,
    Wfc,
}

/// `c` with ASCII `A`-`Z` mapped to `a`-`z`.
pub open spec fn ascii_lower(c: char) -> char {
    if 'A' <= c <= 'Z' {
        ((c as u32) + 32) as char
    } else {
        c
    }
}

/// `s` with every ASCII capital letter lowered.
pub open spec fn ascii_lowered(s: Seq<char>) -> Seq<char> {
    s.map_values(|c: char| ascii_lower(c))
}

/// Relies on std's `str::to_ascii_lowercase`: each ASCII letter `A`-`Z`
/// becomes `a`-`z`, every other character is kept.
#[verifier::external_body]
fn to_ascii_lowercase(s: &str) -> (r: String)
    ensures
        r@ == ascii_lowered(s@),
{
    s.to_ascii_lowercase()
}

/// The message for a mode name that is not recognised.
pub open spec fn invalid_mode_message(lowered: Seq<char>) -> Seq<char> {
    "invalid mode: "@ + lowered + " (expected classic|marble)"@
}

/// The mode named by `s`, ignoring ASCII case: `classic` or `dungeon`,
/// `marble` or `marbles`, `wfc` or `wave`; any other name is an error that
/// quotes it in lower case.
pub fn parse_mode(s: &str) -> (r: Result<ModeArg, String>)
    ensures
        ({
            let l = ascii_lowered(s@);
            if l == "classic"@ || l == "dungeon"@ {
                r == Ok::<ModeArg, String>(ModeArg::Classic)
            } else if l == "marble"@ || l == "marbles"@ {
                r == Ok::<ModeArg, String>(ModeArg::Marble)
            } else if l == "wfc"@ || l == "wave"@ {
                r == Ok::<ModeArg, String>(ModeArg::Wfc)
            } else {
                r matches Err(m) && m@ == invalid_mode_message(l)
            }
        }),
{
    let lower = to_ascii_lowercase(s);
    if lower == String::from_str("classic") || lower == String::from_str("dungeon") {
        Ok(ModeArg::Classic)
    } else if lower == String::from_str("marble") || lower == String::from_str("marbles") {
        Ok(ModeArg::Marble)
    } else if lower == String::from_str("wfc") || lower == String::from_str("wave") {
        Ok(ModeArg::Wfc)
    } else {
        let mut message = String::from_str("invalid mode: ");
        message.append(lower.as_str());
        message.append(" (expected classic|marble)");
        Err(message)
    }
}

impl std::str::FromStr for ModeArg {
    type Err = String;

    fn from_str(s: &str) -> Result<ModeArg, String> {
        parse_mode(s)
    }
}

} // verus!
