//! What a command is checked for before it does anything.

use crate::words::B256;
use vstd::prelude::*;
use vstd::string::StringExecFns;

verus! {

/// Why a command was refused.
#[derive(Clone, Copy, Debug, PartialEq, Eq, Structural)]
pub enum CommandError {
    /// The end does not follow the checkpoint.
    EndBeforeCheckpoint,
    /// The end lies behind what was relayed already.
    EndBeforeCursor,
    /// The range to profile is empty or starts at the first block.
    ProfileRange,
}

impl CommandError {
    /// What the error says.
    pub open spec fn text(self) -> Seq<char> {
        match self {
            CommandError::EndBeforeCheckpoint => "end block must follow the checkpoint"@,
            CommandError::EndBeforeCursor => "end block precedes the durable source cursor"@,
            CommandError::ProfileRange => "invalid profile range; start after a checkpoint block"@,
        }
    }

    /// What the error says.
    pub fn message(&self) -> (r: &'static str)
        ensures
            r@ == self.text(),
    {
        match self {
            CommandError::EndBeforeCheckpoint => "end block must follow the checkpoint",
            CommandError::EndBeforeCursor => "end block precedes the durable source cursor",
            CommandError::ProfileRange => "invalid profile range; start after a checkpoint block",
        }
    }
}

/// Checks that a run ends, if it does, after the checkpoint.
pub fn ensure_end(to_block: Option<u64>, checkpoint_height: u64) -> (r: Result<(), CommandError>)
    ensures
        r == (if to_block matches Some(height) && height <= checkpoint_height {
            Err::<(), CommandError>(CommandError::EndBeforeCheckpoint)
        } else {
            Ok(())
        }),
{
    match to_block {
        Some(height) => if height > checkpoint_height {
            Ok(())
        } else {
            Err(CommandError::EndBeforeCheckpoint)
        },
        None => Ok(()),
    }
}

/// Checks that a run does not end before what was relayed already.
pub fn ensure_resumable(to_block: Option<u64>, source_height: u64) -> (r: Result<(), CommandError>)
    ensures
        r == (if to_block matches Some(end) && source_height > end {
            Err::<(), CommandError>(CommandError::EndBeforeCursor)
        } else {
            Ok(())
        }),
{
    match to_block {
        Some(end) => if source_height <= end {
            Ok(())
        } else {
            Err(CommandError::EndBeforeCursor)
        },
        None => Ok(()),
    }
}

/// Checks the range of a profile and gives the height after which it starts.
pub fn profile_start(from_block: u64, to_block: u64) -> (r: Result<u64, CommandError>)
    ensures
        r == (if from_block > 0 && from_block <= to_block {
            Ok::<u64, CommandError>((from_block - 1) as u64)
        } else {
            Err(CommandError::ProfileRange)
        }),
{
    if from_block > 0 && from_block <= to_block {
        Ok(from_block - 1)
    } else {
        Err(CommandError::ProfileRange)
    }
}

/// How an endpoint does not fit the configured replay.
#[derive(Clone, Copy, Debug, PartialEq, Eq, Structural)]
pub enum EndpointMismatch {
    ChainId,
    CheckpointHash,
}

/// Checks that an endpoint serves the configured chain.
pub fn check_chain(chain_id: u64, expected_chain_id: u64) -> (r: Result<(), EndpointMismatch>)
    ensures
        r == (if chain_id == expected_chain_id {
            Ok::<(), EndpointMismatch>(())
        } else {
            Err(EndpointMismatch::ChainId)
        }),
{
    if chain_id == expected_chain_id {
        Ok(())
    } else {
        Err(EndpointMismatch::ChainId)
    }
}

/// Checks that an endpoint has the configured checkpoint block.
pub fn check_block(hash: B256, expected: B256) -> (r: Result<(), EndpointMismatch>)
    ensures
        r == (if hash == expected {
            Ok::<(), EndpointMismatch>(())
        } else {
            Err(EndpointMismatch::CheckpointHash)
        }),
{
    if hash == expected {
        Ok(())
    } else {
        Err(EndpointMismatch::CheckpointHash)
    }
}

/// The name of the file that a report is written to before it takes the place of `name`.
pub fn temporary_name(name: Option<&str>, process: u32) -> (r: String)
    ensures
        r@ == "."@ + (match name {
            Some(name) => name@,
            None => "report"@,
        }) + ".tmp-"@ + crate::text::decimal(process as nat),
{
    let mut out = String::from_str(".");
    match name {
        Some(name) => out.append(name),
        None => out.append("report"),
    }
    out.append(".tmp-");
    crate::text::push_decimal(&mut out, process as u64);
    out
}

} // verus!
