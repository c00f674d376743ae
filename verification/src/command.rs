//! What a command line asks for.
use vstd::prelude::*;

use crate::laws::command::{accepted_command_lines, refused_command_lines};

verus! {

/// The option that asks for compression: `-c`.
pub const COMPRESS_FLAG: [u8; 2] = [0x2D, 0x63];

/// The option that asks for decompression: `-d`.
pub const DECOMPRESS_FLAG: [u8; 2] = [0x2D, 0x64];

/// What to do with the files that match the input pattern.
#[derive(Clone, Copy, Debug, PartialEq, Eq, Structural)]
pub enum Task {
    /// Compress each of them.
    Compress,
    /// Decompress the only one.
    Decompress,
}

/// Why a command line cannot be carried out.
#[derive(Clone, Copy, Debug, PartialEq, Eq, Structural)]
pub enum UsageError {
    /// No file matches the input pattern.
    NoInput,
    /// Decompression was asked for without an output file.
    MissingOutput,
    /// One output file was given for several input files.
    AmbiguousOutput,
    /// The option is not known.
    InvalidOption,
}

/// What a command line asks for, given its option, how many files match its
/// input pattern, and whether it names an output file.
pub open spec fn planned(flag: Seq<u8>, inputs: nat, has_output: bool) -> Result<
    Task,
    UsageError,
> {
    if inputs == 0 {
        Err(UsageError::NoInput)
    } else if flag == DECOMPRESS_FLAG@ && !has_output {
        Err(UsageError::MissingOutput)
    } else if has_output && inputs > 1 {
        Err(UsageError::AmbiguousOutput)
    } else if flag == COMPRESS_FLAG@ {
        Ok(Task::Compress)
    } else if flag == DECOMPRESS_FLAG@ {
        Ok(Task::Decompress)
    } else {
        Err(UsageError::InvalidOption)
    }
}

/// Tells whether `flag` is `option`.
fn is_option(flag: &[u8], option: [u8; 2]) -> (same: bool)
    ensures
        same == (flag@ == option@),
{
    let same: bool = flag.len() == 2 && flag[0] == option[0] && flag[1] == option[1];
    assert(same ==> flag@ =~= option@);
    same
}

/// Decides what a command line asks for.
pub fn plan(flag: &[u8], inputs: usize, has_output: bool) -> (task: Result<Task, UsageError>)
    ensures
        task == planned(flag@, inputs as nat, has_output),
        flag@ == seq![0x2Du8, 0x63u8] && inputs >= 1 && !has_output ==> task == Ok::<
            Task,
            UsageError,
        >(Task::Compress),
        task == Err::<Task, UsageError>(UsageError::MissingOutput) <==> flag@ == seq![
            0x2Du8,
            0x64u8,
        ] && inputs >= 1 && !has_output,
        task == Ok::<Task, UsageError>(Task::Decompress) ==> inputs == 1 && has_output,
{
    proof {
        accepted_command_lines(flag@, inputs as nat, has_output);
        refused_command_lines(flag@, inputs as nat, has_output);
    }
    if inputs == 0 {
        return Err(UsageError::NoInput);
    }
    let decompress: bool = is_option(flag, DECOMPRESS_FLAG);
    if decompress && !has_output {
        return Err(UsageError::MissingOutput);
    }
    if has_output && inputs > 1 {
        return Err(UsageError::AmbiguousOutput);
    }
    if is_option(flag, COMPRESS_FLAG) {
        Ok(Task::Compress)
    } else if decompress {
        Ok(Task::Decompress)
    } else {
        Err(UsageError::InvalidOption)
    }
}

} // verus!
