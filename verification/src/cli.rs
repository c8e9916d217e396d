use vstd::prelude::*;

verus! {

/// The subcommands the tool understands, as plain data.
///
/// Argument parsing itself is a front-end concern and lives outside the
/// library; these types carry the parsed request into it.
pub enum Commands {
    Keep { message: Vec<String> },
    List(ListArgs),
    Search(SearchArgs),
    Index,
}

/// The top-level command line: exactly one subcommand.
pub struct Cli {
    pub command: Commands,
}

/// How a record's timestamp is rendered for display.
#[derive(Copy, Clone, PartialEq, Eq, Structural, Debug)]
pub enum DateFormat {
    Ago,
    ISO,
    Epoch,
    EpochMs,
    Human,
}

pub struct ListArgs {
    /// The maximum number of records to show.
    pub n: usize,
    pub date_format: DateFormat,
}

pub struct SearchArgs {
    pub query: Vec<String>,
    /// The maximum number of results to show.
    pub n: usize,
    pub date_format: DateFormat,
}

impl Default for ListArgs {
    fn default() -> (r: Self)
        ensures
            r.n == 10,
            r.date_format == DateFormat::Ago,
    {
        ListArgs { n: 10, date_format: DateFormat::Ago }
    }
}

impl Default for SearchArgs {
    fn default() -> (r: Self)
        ensures
            r.query@ == Seq::<String>::empty(),
            r.n == 10,
            r.date_format == DateFormat::Ago,
    {
        SearchArgs { query: Vec::new(), n: 10, date_format: DateFormat::Ago }
    }
}

} // verus!
