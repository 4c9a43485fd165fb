use vstd::prelude::*;

use crate::error::BfError;

verus! {

/// An output port: consumes one cell per call and appends its rendering to
/// an in-memory byte sink. `out` is the sink's content so far; `render`
/// says which bytes one cell contributes. A failing port must report
/// `IOFailure` and leave the sink untouched.
pub trait Writer: Sized {
    spec fn out(&self) -> Seq<u8>;

    spec fn render(cell: u8) -> Seq<u8>;

    fn write(&mut self, cell: u8) -> (r: Result<(), BfError>)
        ensures
            r is Ok ==> final(self).out() == old(self).out() + Self::render(cell),
            r is Err ==> r->Err_0 == BfError::IOFailure && final(self).out() == old(self).out(),
    ;
}

/// An input port: produces the next cell from a byte source. An exhausted
/// source hands back 0 and stays exhausted (mirroring a read from an
/// ended stream that leaves a zeroed buffer untouched). A failing port
/// must report `IOFailure` and consume nothing.
pub trait Reader: Sized {
    spec fn remaining(&self) -> Seq<u8>;

    fn read(&mut self) -> (r: Result<u8, BfError>)
        ensures
            r is Ok ==> (if old(self).remaining().len() > 0 {
                r->Ok_0 == old(self).remaining()[0] && final(self).remaining()
                    == old(self).remaining().drop_first()
            } else {
                r->Ok_0 == 0 && final(self).remaining() == old(self).remaining()
            }),
            r is Err ==> r->Err_0 == BfError::IOFailure && final(self).remaining() == old(
                self,
            ).remaining(),
    ;
}

/// The UTF-8 encoding of the character whose code point is `cell`: one
/// byte below 128, two bytes above (the code points 128..=255 all encode
/// as a two-byte sequence).
pub open spec fn utf8_of_cell(cell: u8) -> Seq<u8> {
    if cell < 128 {
        seq![cell]
    } else {
        seq![(192 + cell as int / 64) as u8, (128 + cell as int % 64) as u8]
    }
}

/// The decimal digits of `cell`, as bytes, without leading zeros (except
/// that 0 itself renders as the single digit `'0'`).
pub open spec fn decimal_of_cell(cell: u8) -> Seq<u8> {
    if cell < 10 {
        seq![(48 + cell as int) as u8]
    } else if cell < 100 {
        seq![(48 + cell as int / 10) as u8, (48 + cell as int % 10) as u8]
    } else {
        seq![
            (48 + cell as int / 100) as u8,
            (48 + (cell as int / 10) % 10) as u8,
            (48 + cell as int % 10) as u8,
        ]
    }
}

/// Renders each cell as the character with that code point, UTF-8 encoded,
/// into an in-memory buffer.
pub struct AsciiWriter {
    pub buf: Vec<u8>,
}

impl AsciiWriter {
    pub fn new() -> (r: AsciiWriter)
        ensures
            r.buf@ == Seq::<u8>::empty(),
    {
        AsciiWriter { buf: Vec::new() }
    }
}

impl Writer for AsciiWriter {
    open spec fn out(&self) -> Seq<u8> {
        self.buf@
    }

    open spec fn render(cell: u8) -> Seq<u8> {
        utf8_of_cell(cell)
    }

    fn write(&mut self, cell: u8) -> (r: Result<(), BfError>)
        ensures
            r is Ok,
    {
        if cell < 128 {
            self.buf.push(cell);
        } else {
            self.buf.push(192 + cell / 64);
            self.buf.push(128 + cell % 64);
        }
        proof {
            assert(self.buf@ =~= old(self).buf@ + utf8_of_cell(cell));
        }
        Ok(())
    }
}

/// Renders each cell as the decimal digits of its numeric value into an
/// in-memory buffer.
pub struct IntWriter {
    pub buf: Vec<u8>,
}

impl IntWriter {
    pub fn new() -> (r: IntWriter)
        ensures
            r.buf@ == Seq::<u8>::empty(),
    {
        IntWriter { buf: Vec::new() }
    }
}

impl Writer for IntWriter {
    open spec fn out(&self) -> Seq<u8> {
        self.buf@
    }

    open spec fn render(cell: u8) -> Seq<u8> {
        decimal_of_cell(cell)
    }

    fn write(&mut self, cell: u8) -> (r: Result<(), BfError>)
        ensures
            r is Ok,
    {
        if cell >= 100 {
            self.buf.push(48 + cell / 100);
        }
        if cell >= 10 {
            self.buf.push(48 + (cell / 10) % 10);
        }
        self.buf.push(48 + cell % 10);
        proof {
            assert(self.buf@ =~= old(self).buf@ + decimal_of_cell(cell));
        }
        Ok(())
    }
}

/// Produces cells from an in-memory byte source, in order; once the source
/// is exhausted every further read yields 0.
pub struct AsciiReader {
    data: Vec<u8>,
    pos: usize,
}

impl AsciiReader {
    pub fn new(data: Vec<u8>) -> (r: AsciiReader)
        ensures
            r.remaining() == data@,
    {
        AsciiReader { data, pos: 0 }
    }
}

impl Reader for AsciiReader {
    closed spec fn remaining(&self) -> Seq<u8> {
        if self.pos <= self.data@.len() {
            self.data@.skip(self.pos as int)
        } else {
            Seq::empty()
        }
    }

    fn read(&mut self) -> (r: Result<u8, BfError>)
        ensures
            r is Ok,
    {
        if self.pos < self.data.len() {
            let v: u8 = self.data[self.pos];
            self.pos = self.pos + 1;
            proof {
                assert(self.remaining() =~= old(self).remaining().drop_first());
            }
            Ok(v)
        } else {
            Ok(0)
        }
    }
}

} // verus!

