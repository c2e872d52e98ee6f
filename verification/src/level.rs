//! Reading a log level filter from its name.
use vstd::prelude::*;

use log::LevelFilter;

verus! {

/// The level filters of `log`, from the quietest.
#[derive(Clone, Copy, Debug, PartialEq, Eq, Structural)]
pub enum LevelName {
    Off,
    Error,
    Warn,
    Info,
    Debug,
    Trace,
}

impl LevelName {
    /// The place of the filter among `level_names()`.
    pub open spec fn index(self) -> int {
        match self {
            LevelName::Off => 0,
            LevelName::Error => 1,
            LevelName::Warn => 2,
            LevelName::Info => 3,
            LevelName::Debug => 4,
            LevelName::Trace => 5,
        }
    }
}

/// Text that names no level filter.
#[derive(Clone, Copy, Debug, PartialEq, Eq, Structural)]
pub struct UnknownLevel;

/// The names of the level filters, from the quietest.
pub open spec fn level_names() -> Seq<Seq<char>> {
    seq![
        seq!['O', 'F', 'F'],
        seq!['E', 'R', 'R', 'O', 'R'],
        seq!['W', 'A', 'R', 'N'],
        seq!['I', 'N', 'F', 'O'],
        seq!['D', 'E', 'B', 'U', 'G'],
        seq!['T', 'R', 'A', 'C', 'E'],
    ]
}

/// The character with an ASCII capital letter made small.
pub open spec fn ascii_lower(c: char) -> char {
    if 65 <= (c as u32) && (c as u32) <= 90 {
        ((c as u32) + 32) as char
    } else {
        c
    }
}

/// The two texts are equal but for the case of ASCII letters.
pub open spec fn eq_ignoring_ascii_case(a: Seq<char>, b: Seq<char>) -> bool {
    a.len() == b.len() && forall|i: int| 0 <= i < a.len() ==> ascii_lower(#[trigger] a[i]) == ascii_lower(b[i])
}

/// The text is the name of a level filter, in any case.
pub open spec fn names_a_level(s: Seq<char>) -> bool {
    exists|k: int| 0 <= k < level_names().len() && eq_ignoring_ascii_case(s, #[trigger] level_names()[k])
}

/// Calls `LevelFilter::from_str` and tells the filter it gives by its place
/// among `level_names()`. `log`'s source compares the text, ignoring ASCII
/// case, with the six names in that order and gives the filter of the first
/// that matches; it fails when none matches.
#[verifier::external_body]
fn level_from_str(level: &str) -> (r: Option<usize>)
    ensures
        r is None <==> !names_a_level(level@),
        r matches Some(k) ==> k < level_names().len() && eq_ignoring_ascii_case(
            level@,
            level_names()[k as int],
        ),
{
    match level.parse::<LevelFilter>() {
        Ok(LevelFilter::Off) => Some(0),
        Ok(LevelFilter::Error) => Some(1),
        Ok(LevelFilter::Warn) => Some(2),
        Ok(LevelFilter::Info) => Some(3),
        Ok(LevelFilter::Debug) => Some(4),
        Ok(LevelFilter::Trace) => Some(5),
        Err(_) => None,
    }
}

/// The log level filter that `level` names, in any case; an error when it
/// names none.
pub fn parse_level_filter(level: &str) -> (r: Result<LevelName, UnknownLevel>)
    ensures
        r is Err <==> !names_a_level(level@),
        r matches Ok(l) ==> eq_ignoring_ascii_case(level@, level_names()[l.index()]),
{
    match level_from_str(level) {
        Some(0) => Ok(LevelName::Off),
        Some(1) => Ok(LevelName::Error),
        Some(2) => Ok(LevelName::Warn),
        Some(3) => Ok(LevelName::Info),
        Some(4) => Ok(LevelName::Debug),
        Some(_) => Ok(LevelName::Trace),
        None => Err(UnknownLevel),
    }
}

} // verus!
