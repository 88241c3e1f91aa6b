use vstd::prelude::*;
use crate::text::{chars_of, parse_u32_range, u32_outcome};

verus! {

/// How results are printed.
#[derive(Debug, Clone, Copy, PartialEq, Eq)]
pub enum OutputFormat {
    Text,
    Json,
}

impl Default for OutputFormat {
    fn default() -> (f: Self)
        ensures
            f == OutputFormat::Text,
    {
        OutputFormat::Text
    }
}

/// The settings of a private bus query.
#[derive(Debug, Clone)]
pub struct PrivateBusConfig {
    pub stops_file: String,
    pub routes_file: String,
    pub stops: Vec<String>,
    pub destination: String,
    pub arrive_by: String,
    pub output_format: OutputFormat,
    pub verbose: bool,
    pub output_geojson: Option<String>,
}

/// A destination as given on the command line: a stop identifier or a stop name.
#[derive(Debug, Clone)]
pub enum DestinationSpec {
    Id(u32),
    Name(String),
}

/// A destination that reads as a `u32` (as std's `u32::from_str` reads it) is a stop
/// identifier; anything else is a stop name.
pub fn parse_destination(destination: &str) -> (d: DestinationSpec)
    ensures
        match u32_outcome(destination@) {
            Ok(id) => d matches DestinationSpec::Id(x) && x == id,
            Err(_) => d matches DestinationSpec::Name(name) && name@ == destination@,
        },
{
    let cs = chars_of(destination);
    assert(cs@.subrange(0, cs@.len() as int) =~= destination@);
    match parse_u32_range(&cs, 0, cs.len()) {
        Ok(id) => DestinationSpec::Id(id),
        Err(_) => DestinationSpec::Name(String::from_str(destination)),
    }
}

/// Checks a requested number of transfers: when one is given, it is at most ten.
pub fn check_max_transfers(max_transfers: Option<usize>) -> (r: Result<(), String>)
    ensures
        r is Ok <==> (max_transfers matches Some(m) ==> m <= 10),
        r matches Err(e) ==> e@ == "Max transfers cannot exceed 10"@,
{
    match max_transfers {
        Some(m) => {
            if m > 10 {
                Err(String::from_str("Max transfers cannot exceed 10"))
            } else {
                Ok(())
            }
        },
        None => Ok(()),
    }
}

} // verus!
