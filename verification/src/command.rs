//! The developer command line: `asset-schema --output <path>`.

use vstd::prelude::*;

use crate::charseq::{chars_of, spells, string_of};

verus! {

/// The command line was not `asset-schema --output <path>`.
#[derive(Debug)]
pub struct UsageError {
    /// How the command is used.
    pub message: String,
}

/// The views of a list of arguments.
pub open spec fn args_view(args: Seq<String>) -> Seq<Seq<char>> {
    args.map_values(|a: String| a@)
}

/// The output path `args` name, if they are exactly `asset-schema --output <path>`.
pub open spec fn schema_output(args: Seq<Seq<char>>) -> Option<Seq<char>> {
    if args.len() == 3 && args[0] == "asset-schema"@ && args[1] == "--output"@ {
        Some(args[2])
    } else {
        None
    }
}

/// The usage error, saying how the command is used.
pub fn usage_error() -> (e: UsageError)
    ensures
        e.message@ == "usage: cargo xtask asset-schema --output <path>"@,
{
    let text = chars_of("usage: cargo xtask asset-schema --output <path>");
    UsageError { message: string_of(text.as_slice()) }
}

/// The output path of `asset-schema --output <path>`, the arguments after the
/// program's name; anything else is a [`UsageError`].
pub fn parse_asset_schema_command(args: &[String]) -> (r: Result<String, UsageError>)
    ensures
        schema_output(args_view(args@)) matches Some(p) ==> (r matches Ok(out) && out@ == p),
        schema_output(args_view(args@)) is None ==> r is Err,
{
    let ghost views = args_view(args@);
    if args.len() < 1 || !spells(chars_of(args[0].as_str()).as_slice(), "asset-schema") {
        return Err(usage_error());
    }
    if args.len() < 2 || !spells(chars_of(args[1].as_str()).as_slice(), "--output") {
        return Err(usage_error());
    }
    if args.len() < 3 {
        return Err(usage_error());
    }
    if args.len() > 3 {
        return Err(usage_error());
    }
    proof {
        assert(views[0] == args@[0]@ && views[1] == args@[1]@ && views[2] == args@[2]@);
    }
    let output = chars_of(args[2].as_str());
    Ok(string_of(output.as_slice()))
}

} // verus!
