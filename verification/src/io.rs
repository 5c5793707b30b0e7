//! The input as lines: one record per line, each line with its number.

use vstd::prelude::*;

verus! {

/// The byte that ends a line.
pub const NEWLINE: u8 = 10;

/// Where the line that starts at `from` ends: just behind its newline,
/// or at the end of the input where no newline follows.
pub open spec fn line_end(input: Seq<u8>, from: int) -> int
    decreases input.len() - from,
{
    if from < 0 || from >= input.len() {
        input.len() as int
    } else if input[from] == NEWLINE {
        from + 1
    } else {
        line_end(input, from + 1)
    }
}

/// A line ends behind where it starts, within the input, and holds no
/// newline but at its end.
pub proof fn lemma_line_end(input: Seq<u8>, from: int)
    requires
        0 <= from < input.len(),
    ensures
        from < line_end(input, from) <= input.len(),
        forall|i: int| from <= i < line_end(input, from) - 1 ==> input[i] != NEWLINE,
        line_end(input, from) < input.len() ==> input[line_end(input, from) - 1] == NEWLINE,
    decreases input.len() - from,
{
    if input[from] != NEWLINE {
        if from + 1 < input.len() {
            lemma_line_end(input, from + 1);
        } else {
            assert(line_end(input, from + 1) == input.len());
        }
    }
}

/// The lines of an input that are still to be read.
#[derive(Debug)]
pub struct Records {
    input: Vec<u8>,
    pos: usize,
    line_no: usize,
}

impl Records {
    #[verifier::type_invariant]
    spec fn well_formed(self) -> bool {
        self.line_no <= self.pos <= self.input@.len()
    }

    /// The whole input.
    pub closed spec fn input(self) -> Seq<u8> {
        self.input@
    }

    /// Where the next line starts.
    pub closed spec fn position(self) -> int {
        self.pos as int
    }

    /// The number of lines read so far.
    pub closed spec fn lines_read(self) -> int {
        self.line_no as int
    }

    /// Reads the next line: its number, counted from 1, and its bytes,
    /// the newline included. `None` at the end of the input.
    pub fn next(&mut self) -> (r: Option<(usize, Vec<u8>)>)
        ensures
            final(self).input() == old(self).input(),
            0 <= old(self).position() <= old(self).input().len(),
            match r {
                None => old(self).position() == old(self).input().len() && final(self).position()
                    == old(self).position() && final(self).lines_read() == old(
                    self,
                ).lines_read(),
                Some((number, line)) => old(self).position() < old(self).input().len()
                    && final(self).position() == line_end(
                    old(self).input(),
                    old(self).position(),
                ) && line@ == old(self).input().subrange(
                    old(self).position(),
                    final(self).position(),
                ) && number == old(self).lines_read() + 1 && final(self).lines_read() == number,
            },
    {
        proof {
            use_type_invariant(&*self);
        }
        if self.pos >= self.input.len() {
            return None;
        }
        let start = self.pos;
        let mut line: Vec<u8> = Vec::new();
        let mut end: usize = start;
        let mut found = false;
        while end < self.input.len() && !found
            invariant
                start <= end <= self.input@.len(),
                start < self.input@.len(),
                line@ == self.input@.subrange(start as int, end as int),
                !found ==> line_end(self.input@, start as int) == line_end(self.input@, end as int),
                found ==> line_end(self.input@, start as int) == end && end > start,
            decreases self.input@.len() - end + (if found { 0int } else { 1int }),
        {
            let b = self.input[end];
            line.push(b);
            assert(line@ =~= self.input@.subrange(start as int, end + 1));
            if b == NEWLINE {
                found = true;
            }
            end = end + 1;
        }
        assert(line_end(self.input@, start as int) == end);
        self.pos = end;
        self.line_no = self.line_no + 1;
        Some((self.line_no, line))
    }
}

/// Starts reading `input` at its first line.
pub fn read_records(input: Vec<u8>) -> (r: Records)
    ensures
        r.input() == input@,
        r.position() == 0,
        r.lines_read() == 0,
{
    Records { input, pos: 0, line_no: 0 }
}

} // verus!
