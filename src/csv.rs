//! Reading the comma-separated rows of reference files, one cell at a time.
use vstd::prelude::*;
use crate::text::{copy_range, decimal_in, find_byte, first_index_of, parse_decimal};
use vstd::string::StringSliceAdditionalSpecFns;

verus! {

pub const COMMA: u8 = 44;

pub const COLON: u8 = 58;

/// The pieces of `s[pos..]` between separators `sep`: always at least one.
pub open spec fn split_from(s: Seq<u8>, sep: u8, pos: int) -> Seq<Seq<u8>>
    decreases s.len() - pos,
{
    let rest = s.subrange(pos, s.len() as int);
    match first_index_of(rest, sep) {
        None => seq![rest],
        Some(k) => if pos + k + 1 <= s.len() && k >= 0 {
            seq![rest.subrange(0, k)] + split_from(s, sep, pos + k + 1)
        } else {
            seq![rest]
        },
    }
}

pub open spec fn split_on(s: Seq<u8>, sep: u8) -> Seq<Seq<u8>> {
    split_from(s, sep, 0)
}

pub open spec fn pieces_view(v: Seq<Vec<u8>>) -> Seq<Seq<u8>> {
    v.map_values(|p: Vec<u8>| p@)
}

/// Splits `s` at every `sep`.
pub fn split_bytes(s: &[u8], sep: u8) -> (r: Vec<Vec<u8>>)
    ensures
        pieces_view(r@) == split_on(s@, sep),
        r@.len() >= 1,
{
    let mut r: Vec<Vec<u8>> = Vec::new();
    let mut pos: usize = 0;
    loop
        invariant
            pos <= s@.len(),
            split_on(s@, sep) == pieces_view(r@) + split_from(s@, sep, pos as int),
        decreases s@.len() - pos,
    {
        let rest = copy_range(s, pos, s.len());
        match find_byte(rest.as_slice(), sep) {
            None => {
                proof {
                    assert(pieces_view(r@.push(rest)) =~= pieces_view(r@).push(rest@));
                    assert(pieces_view(r@) + seq![rest@] =~= pieces_view(r@).push(rest@));
                }
                r.push(rest);
                return r;
            },
            Some(k) => {
                proof {
                    crate::text::lemma_first_index_bounds(rest@, sep);
                }
                let piece = copy_range(rest.as_slice(), 0, k);
                proof {
                    assert(pieces_view(r@.push(piece)) =~= pieces_view(r@).push(piece@));
                    assert(pieces_view(r@) + (seq![piece@] + split_from(s@, sep, pos + k + 1))
                        =~= pieces_view(r@).push(piece@) + split_from(s@, sep, pos + k + 1));
                }
                r.push(piece);
                pos = pos + k + 1;
            },
        }
    }
}

/// Why a row could not be read.
#[derive(Debug, Clone, PartialEq, Eq)]
pub enum CsvError {
    /// The row (line `line`, text `data`) has fewer cells than asked for.
    InsufficientCells { line: usize, data: Vec<u8> },
    /// A time that is not three `:`-separated parts.
    MalformedTime,
    /// A time of three parts that are not all numbers from 0 to 255.
    UnknownTime,
    /// The row (text `data`) has `count` cells left over.
    UnexpectedFields { count: usize, data: Vec<u8> },
}

/// The cells of one row, handed out from the left.
pub struct CsvIter {
    data: Vec<u8>,
    cells: Vec<Vec<u8>>,
    next: usize,
    line: usize,
}

pub struct CsvIterView {
    pub data: Seq<u8>,
    pub line: usize,
    /// The cells not yet handed out.
    pub rest: Seq<Seq<u8>>,
}

impl View for CsvIter {
    type V = CsvIterView;

    closed spec fn view(&self) -> CsvIterView {
        CsvIterView {
            data: self.data@,
            line: self.line,
            rest: pieces_view(self.cells@).subrange(self.next as int, self.cells@.len() as int),
        }
    }
}

/// The time of day that an `hh:mm:ss` cell gives.
pub open spec fn time_of_cell(c: Seq<u8>) -> Result<(u8, u8, u8), CsvError> {
    let parts = split_on(c, COLON);
    if parts.len() != 3 {
        Err(CsvError::MalformedTime)
    } else {
        match (
            decimal_in(parts[0], false, 0, 255),
            decimal_in(parts[1], false, 0, 255),
            decimal_in(parts[2], false, 0, 255),
        ) {
            (Some(h), Some(m), Some(s)) => Ok((h as u8, m as u8, s as u8)),
            _ => Err(CsvError::UnknownTime),
        }
    }
}

/// The error for a row (line `line`, text `data`) that ran out of cells.
pub open spec fn is_insufficient(e: CsvError, line: usize, data: Seq<u8>) -> bool {
    e matches CsvError::InsufficientCells { line: l, data: d } && l == line && d@ == data
}

impl CsvIter {
    pub closed spec fn wf(&self) -> bool {
        self.next <= self.cells@.len()
    }

    fn insufficient(&self) -> (r: CsvError)
        ensures
            is_insufficient(r, self@.line, self@.data),
    {
        let data = copy_range(self.data.as_slice(), 0, self.data.len());
        assert(data@ =~= self.data@);
        CsvError::InsufficientCells { line: self.line, data }
    }

    /// The cells of row `data`, which is line `line` of its file.
    pub fn new(line: usize, data: &str) -> (r: CsvIter)
        ensures
            r.wf(),
            r@.data == data.spec_bytes(),
            r@.line == line,
            r@.rest == split_on(data.spec_bytes(), COMMA),
    {
        let b = data.as_bytes();
        let cells = split_bytes(b, COMMA);
        let r = CsvIter { data: copy_range(b, 0, b.len()), cells, next: 0, line };
        assert(pieces_view(r.cells@).subrange(0, r.cells@.len() as int) =~= pieces_view(r.cells@));
        r
    }

    /// The next cell, or an error when none is left.
    pub fn try_next(&mut self) -> (r: Result<Vec<u8>, CsvError>)
        requires
            old(self).wf(),
        ensures
            final(self).wf(),
            final(self)@.data == old(self)@.data,
            final(self)@.line == old(self)@.line,
            old(self)@.rest.len() == 0 ==> (r matches Err(e) && is_insufficient(e, old(self)@.line, old(self)@.data))
                && final(self)@.rest == old(self)@.rest,
            old(self)@.rest.len() > 0 ==> (r matches Ok(c) && c@ == old(self)@.rest[0])
                && final(self)@.rest == old(self)@.rest.drop_first(),
    {
        if self.next >= self.cells.len() {
            return Err(self.insufficient());
        }
        let c = copy_range(self.cells[self.next].as_slice(), 0, self.cells[self.next].len());
        let ghost before = pieces_view(self.cells@);
        self.next = self.next + 1;
        assert(before.subrange(self.next - 1, self.cells@.len() as int).drop_first()
            =~= before.subrange(self.next as int, self.cells@.len() as int));
        assert(c@ =~= self.cells@[self.next - 1]@);
        Ok(c)
    }

    /// The next cell, which must be there.
    pub fn next(&mut self) -> (r: Vec<u8>)
        requires
            old(self).wf(),
            old(self)@.rest.len() > 0,
        ensures
            final(self).wf(),
            final(self)@.data == old(self)@.data,
            final(self)@.line == old(self)@.line,
            r@ == old(self)@.rest[0],
            final(self)@.rest == old(self)@.rest.drop_first(),
    {
        match self.try_next() {
            Ok(c) => c,
            Err(_) => Vec::new(),
        }
    }

    /// The next `n` cells, or an error when fewer are left.
    pub fn try_next_n(&mut self, n: usize) -> (r: Result<Vec<Vec<u8>>, CsvError>)
        requires
            old(self).wf(),
        ensures
            final(self).wf(),
            final(self)@.data == old(self)@.data,
            final(self)@.line == old(self)@.line,
            n <= old(self)@.rest.len() ==> (r matches Ok(v) && pieces_view(v@) == old(self)@.rest.subrange(0, n as int))
                && final(self)@.rest == old(self)@.rest.subrange(n as int, old(self)@.rest.len() as int),
            n > old(self)@.rest.len() ==> (r matches Err(e) && is_insufficient(e, old(self)@.line, old(self)@.data))
                && final(self)@.rest.len() == 0,
    {
        let ghost rest0 = self@.rest;
        let mut v: Vec<Vec<u8>> = Vec::new();
        let mut i: usize = 0;
        while i < n
            invariant
                self.wf(),
                self@.data == old(self)@.data,
                self@.line == old(self)@.line,
                rest0 == old(self)@.rest,
                i <= n,
                i <= rest0.len(),
                pieces_view(v@) == rest0.subrange(0, i as int),
                self@.rest == rest0.subrange(i as int, rest0.len() as int),
            decreases n - i,
        {
            match self.try_next() {
                Ok(c) => {
                    assert(pieces_view(v@.push(c)) =~= pieces_view(v@).push(c@));
                    assert(rest0.subrange(0, i + 1) =~= rest0.subrange(0, i as int).push(c@));
                    assert(rest0.subrange(i as int, rest0.len() as int).drop_first() =~= rest0.subrange(
                        i + 1,
                        rest0.len() as int,
                    ));
                    v.push(c);
                },
                Err(e) => return Err(e),
            }
            i = i + 1;
        }
        Ok(v)
    }

    /// The next `n` cells, which must be there.
    pub fn next_n(&mut self, n: usize) -> (r: Vec<Vec<u8>>)
        requires
            old(self).wf(),
            n <= old(self)@.rest.len(),
        ensures
            final(self).wf(),
            final(self)@.data == old(self)@.data,
            final(self)@.line == old(self)@.line,
            pieces_view(r@) == old(self)@.rest.subrange(0, n as int),
            final(self)@.rest == old(self)@.rest.subrange(n as int, old(self)@.rest.len() as int),
    {
        match self.try_next_n(n) {
            Ok(v) => v,
            Err(_) => Vec::new(),
        }
    }

    /// Reads the next cell as an `hh:mm:ss` time.
    pub fn try_next_time(&mut self) -> (r: Result<(u8, u8, u8), CsvError>)
        requires
            old(self).wf(),
            old(self)@.rest.len() > 0,
        ensures
            final(self).wf(),
            final(self)@.rest == old(self)@.rest.drop_first(),
            r == time_of_cell(old(self)@.rest[0]),
    {
        let text = self.next();
        let parts = split_bytes(text.as_slice(), COLON);
        if parts.len() != 3 {
            return Err(CsvError::MalformedTime);
        }
        let h = parse_decimal(parts[0].as_slice(), false, 0, 255);
        let m = parse_decimal(parts[1].as_slice(), false, 0, 255);
        let s = parse_decimal(parts[2].as_slice(), false, 0, 255);
        match (h, m, s) {
            (Some(h), Some(m), Some(s)) => Ok((h as u8, m as u8, s as u8)),
            _ => Err(CsvError::UnknownTime),
        }
    }

    /// Succeeds when every cell has been handed out.
    pub fn try_finish(self) -> (r: Result<(), CsvError>)
        requires
            self.wf(),
        ensures
            self@.rest.len() == 0 ==> r is Ok,
            self@.rest.len() > 0 ==> (r matches Err(CsvError::UnexpectedFields { count, data })
                && count == self@.rest.len() && data@ == self@.data),
    {
        let remain = self.cells.len() - self.next;
        if remain == 0 {
            Ok(())
        } else {
            let data = copy_range(self.data.as_slice(), 0, self.data.len());
            assert(data@ =~= self.data@);
            Err(CsvError::UnexpectedFields { count: remain, data })
        }
    }

    /// Ends a row whose every cell has been handed out.
    pub fn finish(self)
        requires
            self.wf(),
            self@.rest.len() == 0,
    {
        let _ = self.try_finish();
    }
}

} // verus!
