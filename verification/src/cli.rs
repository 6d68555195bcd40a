//! The configuration each subcommand carries, as plain values. Paths are
//! held as strings; the surrounding binary owns the argument parsing and
//! hands these in.

use vstd::prelude::*;

verus! {

/// The whole command line: which subcommand runs, with its options.
#[derive(Debug)]
pub struct CliArgs {
    pub subcmd: SubCmd,
}

/// The four operations the tool offers.
#[derive(Debug)]
pub enum SubCmd {
    Dump(DumpArgs),
    Load(LoadArgs),
    Edit(EditArgs),
    Patch(PatchArgs),
}

/// Options of the dump direction: bytes to annotated hex text.
#[derive(Debug)]
pub struct DumpArgs {
    /// Octets shown on each line; must be positive.
    pub columns: usize,
    /// Octets per space-separated group; zero disables grouping.
    pub groupsize: usize,
    /// Added to every offset in the output.
    pub offset: u64,
    /// Input file path; standard input when absent.
    pub input: Option<String>,
}

impl Default for DumpArgs {
    /// Sixteen columns, groups of four, offsets from zero, standard input.
    fn default() -> (r: DumpArgs)
        ensures
            r.columns == 16,
            r.groupsize == 4,
            r.offset == 0,
            r.input is None,
    {
        DumpArgs { columns: 16, groupsize: 4, offset: 0, input: None }
    }
}

/// Options of the load direction: dump text back to bytes.
#[derive(Debug)]
pub struct LoadArgs {
    /// Input file path; standard input when absent.
    pub input: Option<String>,
}

/// Options of the editing flow: dump, edit, load back.
#[derive(Debug)]
pub struct EditArgs {
    /// Octets shown on each line; must be positive.
    pub columns: usize,
    /// Octets per space-separated group; zero disables grouping.
    pub groupsize: usize,
    /// The file to edit.
    pub input: String,
}

impl Default for EditArgs {
    /// Sixteen columns and groups of four, as the dump direction defaults.
    fn default() -> (r: EditArgs)
        ensures
            r.columns == 16,
            r.groupsize == 4,
            r.input@ == Seq::<char>::empty(),
    {
        EditArgs { columns: 16, groupsize: 4, input: String::new() }
    }
}

/// Options of the patch direction.
#[derive(Debug)]
pub struct PatchArgs {
    /// Added to every resolved offset before seeking; may be negative.
    pub offset: i64,
    /// The file the patch writes into.
    pub target: String,
}

} // verus!
