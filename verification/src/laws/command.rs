//! Laws of the command line.
use vstd::prelude::*;

use crate::command::{planned, Task, UsageError};

verus! {

/// Which command lines are carried out, and how: `-c` with files to compress
/// and at most one output file per file, `-d` with one file and its output.
pub proof fn accepted_command_lines(flag: Seq<u8>, inputs: nat, has_output: bool)
    ensures
        planned(flag, inputs, has_output) == Ok::<Task, UsageError>(Task::Compress) <==> flag
            == seq![0x2Du8, 0x63u8] && inputs >= 1 && (!has_output || inputs == 1),
        planned(flag, inputs, has_output) == Ok::<Task, UsageError>(Task::Decompress) <==> flag
            == seq![0x2Du8, 0x64u8] && inputs == 1 && has_output,
{
    assert(crate::command::COMPRESS_FLAG@ =~= seq![0x2Du8, 0x63u8]);
    assert(crate::command::DECOMPRESS_FLAG@ =~= seq![0x2Du8, 0x64u8]);
    assert(seq![0x2Du8, 0x63u8][1] != seq![0x2Du8, 0x64u8][1]);
}

/// Why a command line is refused: no file matches; or else `-d` names no
/// output; or else one output is named for several files; or else the option
/// is neither `-c` nor `-d`.
pub proof fn refused_command_lines(flag: Seq<u8>, inputs: nat, has_output: bool)
    ensures
        planned(flag, inputs, has_output) == Err::<Task, UsageError>(UsageError::NoInput)
            <==> inputs == 0,
        planned(flag, inputs, has_output) == Err::<Task, UsageError>(UsageError::MissingOutput)
            <==> inputs >= 1 && flag == seq![0x2Du8, 0x64u8] && !has_output,
        planned(flag, inputs, has_output) == Err::<Task, UsageError>(UsageError::AmbiguousOutput)
            <==> inputs >= 2 && has_output,
        planned(flag, inputs, has_output) == Err::<Task, UsageError>(UsageError::InvalidOption)
            <==> flag != seq![0x2Du8, 0x63u8] && flag != seq![0x2Du8, 0x64u8] && inputs >= 1 && (
        !has_output || inputs == 1),
{
    assert(crate::command::COMPRESS_FLAG@ =~= seq![0x2Du8, 0x63u8]);
    assert(crate::command::DECOMPRESS_FLAG@ =~= seq![0x2Du8, 0x64u8]);
    assert(seq![0x2Du8, 0x63u8][1] != seq![0x2Du8, 0x64u8][1]);
}

/// Without an output file, how many files match does not matter, as long as
/// one does.
pub proof fn number_of_inputs_is_free_without_output(flag: Seq<u8>, few: nat, many: nat)
    requires
        few >= 1,
        many >= 1,
    ensures
        planned(flag, few, false) == planned(flag, many, false),
{
}

} // verus!
