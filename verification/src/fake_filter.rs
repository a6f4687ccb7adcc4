//! A fake filter command, useful for testing.

use vstd::prelude::*;

verus! {

/// What the command is to do.
#[derive(Debug, PartialEq, Eq, Structural, Clone, Copy)]
pub struct Args {
    /// Change the input bytes to upper cases based on the ASCII encoding.
    pub uppercase: bool,
    /// Abort right after the process starts, particularly before reading
    /// anything from the stdin.
    pub abort_on_start: bool,
    /// Abort right before the process exits, particularly after writing
    /// everything to the stdout.
    pub abort_on_end: bool,
}

/// The letter in upper case in ASCII.
pub open spec fn ascii_upper(byte: u8) -> u8 {
    if 97 <= byte <= 122 {
        (byte - 32) as u8
    } else {
        byte
    }
}

/// The letter in lower case in ASCII.
pub open spec fn ascii_lower(byte: u8) -> u8 {
    if 65 <= byte <= 90 {
        (byte + 32) as u8
    } else {
        byte
    }
}

/// Returns a letter in upper case.
pub fn to_ascii_upper(byte: u8) -> (upper: u8)
    ensures
        upper == ascii_upper(byte),
{
    if 97 <= byte && byte <= 122 {
        byte - 32
    } else {
        byte
    }
}

/// Returns a letter in lower case.
pub fn to_ascii_lower(byte: u8) -> (lower: u8)
    ensures
        lower == ascii_lower(byte),
{
    if 65 <= byte && byte <= 90 {
        byte + 32
    } else {
        byte
    }
}

impl Args {
    /// What the command makes of its input.
    pub open spec fn converted(&self, input: Seq<u8>) -> Seq<u8> {
        if self.uppercase {
            input.map_values(|byte: u8| ascii_upper(byte))
        } else {
            input
        }
    }

    /// Converts a part of the input.
    pub fn convert(&self, input: &[u8]) -> (output: Vec<u8>)
        ensures
            output@ == self.converted(input@),
    {
        let mut output: Vec<u8> = Vec::new();
        let mut i: usize = 0;
        assert(output@ =~= self.converted(input@).take(0));
        while i < input.len()
            invariant
                i <= input@.len(),
                output@ == self.converted(input@).take(i as int),
            decreases input@.len() - i,
        {
            let byte: u8 = if self.uppercase {
                to_ascii_upper(input[i])
            } else {
                input[i]
            };
            output.push(byte);
            i += 1;
            assert(output@ =~= self.converted(input@).take(i as int));
        }
        assert(self.converted(input@).take(i as int) =~= self.converted(input@));
        output
    }

    /// It does not matter in which parts the input is converted.
    pub proof fn lemma_convert_parts(&self, a: Seq<u8>, b: Seq<u8>)
        ensures
            self.converted(a + b) == self.converted(a) + self.converted(b),
    {
        assert(self.converted(a + b) =~= self.converted(a) + self.converted(b));
    }
}

/// Only letters change, by as much as the cases lie apart, and changing the case
/// twice is the same as changing it once.
pub proof fn lemma_ascii_case(byte: u8, i: u8)
    requires
        i < 26,
    ensures
        ascii_upper((97 + i) as u8) == 65 + i,
        ascii_lower((65 + i) as u8) == 97 + i,
        ascii_lower(ascii_upper((97 + i) as u8)) == 97 + i,
        ascii_upper(ascii_upper(byte)) == ascii_upper(byte),
        ascii_lower(ascii_lower(byte)) == ascii_lower(byte),
        !(97 <= byte <= 122) ==> ascii_upper(byte) == byte,
        !(65 <= byte <= 90) ==> ascii_lower(byte) == byte,
{
}

} // verus!
