//! What the process table says of one process: for how long it has run,
//! the name of its command, and its command line.

use crate::text::{
    chars_of, join, joined, parse_u64, parse_unsigned, split_words, string_of, views, words,
};
use vstd::prelude::*;

verus! {

/// One process, as sampled.
pub struct ProcessSample {
    /// Seconds since the process began.
    pub seconds: u64,
    /// The name of the command.
    pub comm: String,
    /// The command line.
    pub command: String,
}

/// Why a line of the process table could not be read.
#[derive(Clone, Copy, Debug, PartialEq, Eq, Structural)]
pub enum SampleError {
    /// The line is empty.
    MissingEtimes,
    /// The line ends after the run time.
    MissingComm,
    /// The run time is not a number.
    BadEtimes,
}

/// What a line of the process table says. Its words are the run time in
/// seconds, the name of the command, and the command line; the words of the
/// command line are taken with one space between each two.
pub open spec fn sample_of(line: Seq<char>) -> Result<(u64, Seq<char>, Seq<char>), SampleError> {
    let w = words(line);
    if w.len() == 0 {
        Err(SampleError::MissingEtimes)
    } else if w.len() == 1 {
        Err(SampleError::MissingComm)
    } else {
        match parse_unsigned(w[0], u64::MAX as nat) {
            Some(seconds) => Ok((seconds as u64, w[1], joined(w.skip(2), ' '))),
            None => Err(SampleError::BadEtimes),
        }
    }
}

/// Reads the line that `ps -o etimes,comm,command` prints for a process.
pub fn parse_ps_output(ps_out: &str) -> (r: Result<ProcessSample, SampleError>)
    ensures
        match r {
            Ok(sample) => sample_of(ps_out@) == Ok::<_, SampleError>(
                (sample.seconds, sample.comm@, sample.command@),
            ),
            Err(e) => sample_of(ps_out@) == Err::<(u64, Seq<char>, Seq<char>), _>(e),
        },
{
    let parts = split_words(&chars_of(ps_out));
    if parts.len() == 0 {
        return Err(SampleError::MissingEtimes);
    }
    if parts.len() == 1 {
        return Err(SampleError::MissingComm);
    }
    let ghost w = words(ps_out@);
    assert(w[0] == parts@[0]@ && w[1] == parts@[1]@);
    let command = string_of(&join(&parts, 2, ' '));
    match parse_u64(&parts[0]) {
        Some(seconds) => Ok(ProcessSample { seconds, comm: string_of(&parts[1]), command }),
        None => Err(SampleError::BadEtimes),
    }
}

} // verus!
