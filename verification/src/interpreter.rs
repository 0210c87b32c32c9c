use vstd::prelude::*;
use vstd::string::StringExecFns;

/// Converter from [`crate::optimizer::OptCode`] to [`InterpCode`]
pub mod bf2interp;
/// Interpreter run implementation
pub mod run;

verus! {

/// Extended and flat instruction set (to speed up code)
///
/// `offset`, `to` and `input_offset` are backward displacements from the
/// data pointer; `dest` is an absolute instruction index.
#[derive(Debug, Clone, Copy, PartialEq, Eq, Structural)]
pub enum InterpIns {
    /// cells[ptr - offset] = val
    Store {
        /// value to store
        val: u8,
        /// backward displacement from the data pointer
        offset: u32,
    },
    /// cells[ptr - offset] += val
    Add {
        /// value to add
        val: u8,
        /// backward displacement from the data pointer
        offset: u32,
    },
    /// cells[ptr - offset] -= val
    Sub {
        /// value to subtract
        val: u8,
        /// backward displacement from the data pointer
        offset: u32,
    },
    /// cells[ptr - offset] *= val
    Mul {
        /// multiplier
        val: u8,
        /// backward displacement from the data pointer
        offset: u32,
    },
    /// ptr += offset
    PtrAdd {
        /// how far to move right
        offset: u32,
    },
    /// ptr -= offset
    PtrSub {
        /// how far to move left
        offset: u32,
    },
    /// input_offset = new_input_offset
    SetInputOffset {
        /// new value of the register
        new_input_offset: u32,
    },
    /// cells[ptr - to] += cells[ptr - input_offset] * mul; source = 0
    AddMove {
        /// multiplier
        mul: u8,
        /// backward displacement of the target cell
        to: u32,
    },
    /// cells[ptr - to] -= cells[ptr - input_offset] * mul; source = 0
    SubMove {
        /// multiplier
        mul: u8,
        /// backward displacement of the target cell
        to: u32,
    },
    /// cells[ptr - to] *= cells[ptr - input_offset] * mul; source = 0
    MulMove {
        /// multiplier
        mul: u8,
        /// backward displacement of the target cell
        to: u32,
    },
    /// cells[ptr - to] = cells[ptr - input_offset]; source = 0
    Move {
        /// backward displacement of the target cell
        to: u32,
    },
    /// cells[ptr - to] += cells[ptr - input_offset]
    Copy {
        /// backward displacement of the target cell
        to: u32,
    },
    /// putchar(cells[ptr - offset])
    Putchar {
        /// backward displacement from the data pointer
        offset: u32,
    },
    /// cells[ptr - offset] = getchar()
    Getchar {
        /// backward displacement from the data pointer
        offset: u32,
    },
    /// if cells[ptr - input_offset] != 0 { ip = dest }
    JmpT {
        /// jump target
        dest: u32,
    },
    /// if cells[ptr - input_offset] == 0 { ip = dest }
    JmpF {
        /// jump target
        dest: u32,
    },
    /// ip = dest
    Jmp {
        /// jump target
        dest: u32,
    },
}

/// Collection of [`InterpIns`] instructions
#[derive(Debug, Clone, PartialEq, Eq)]
pub struct InterpCode(pub Vec<InterpIns>);

#[verifier::external_type_specification]
#[verifier::external_body]
/// The error type of the standard byte streams, carried through
/// unchanged when a stream fails.
pub struct ExIoError(std::io::Error);

/// InterpreteError
#[derive(Debug)]
pub enum InterpreteError {
    /// invalid data pointer index (-1 etc.)
    DataPointerUnderflow,
    /// data pointer - offset < 0
    InvalidOffset,
    /// Getchar | Putchar failed with an io error
    IOError(std::io::Error),
}

/// Types which can be passed as stdin to [`Interpreter`]
pub trait InterprIOIn: Sized {
    /// The bytes this source is going to yield, oldest first.
    spec fn io_view(&self) -> Seq<u8>;

    /// Execute the getchar bf instruction: read one byte. A source may
    /// fail instead; then it must stand unchanged.
    fn getchar(&mut self) -> (r: Result<u8, std::io::Error>)
        ensures
            (match r {
                Ok(b) => old(self).io_view().len() > 0 && b == old(self).io_view()[0]
                    && final(self).io_view() == old(self).io_view().drop_first(),
                Err(_) => final(self).io_view() == old(self).io_view(),
            }),
    ;
}

/// Types which can be passed as stdout to [`Interpreter`]
pub trait InterprIOOut: Sized {
    /// The bytes this sink has accepted, oldest first.
    spec fn io_view(&self) -> Seq<u8>;

    /// Execute the putchar bf instruction: accept one byte. A sink may
    /// fail instead; then it must stand unchanged.
    fn putchar(&mut self, ch: u8) -> (r: Result<(), std::io::Error>)
        ensures
            (match r {
                Ok(_) => final(self).io_view() == old(self).io_view().push(ch),
                Err(_) => final(self).io_view() == old(self).io_view(),
            }),
    ;

    /// Flush buffered output; what was accepted stays accepted.
    fn flush(&mut self) -> (r: Result<(), std::io::Error>)
        ensures
            final(self).io_view() == old(self).io_view(),
    ;
}

/// A byte source over an in-memory buffer; reports end of input as an
/// IO error, as a real stream would.
#[derive(Debug)]
pub struct BytesReader {
    bytes: Vec<u8>,
    pos: usize,
}

/// A byte sink that keeps everything in memory.
#[derive(Debug)]
pub struct BytesWriter {
    bytes: Vec<u8>,
}

/// Relies on std::io::Error::new: builds some error value to report end
/// of input; nothing is assumed about it.
#[verifier::external_body]
fn end_of_input_error() -> std::io::Error {
    std::io::Error::new(std::io::ErrorKind::UnexpectedEof, "end of input")
}

impl BytesReader {
    /// A source that yields the given bytes, then fails.
    pub fn new(bytes: Vec<u8>) -> (r: BytesReader)
        ensures
            r.io_view() == bytes@,
    {
        let r = BytesReader { bytes, pos: 0 };
        proof {
            assert(r.io_view() =~= r.bytes@);
        }
        r
    }
}

impl InterprIOIn for BytesReader {
    closed spec fn io_view(&self) -> Seq<u8> {
        if self.pos <= self.bytes@.len() {
            self.bytes@.skip(self.pos as int)
        } else {
            Seq::empty()
        }
    }

    fn getchar(&mut self) -> (r: Result<u8, std::io::Error>)
        ensures
            (match r {
                Ok(b) => old(self).io_view().len() > 0 && b == old(self).io_view()[0]
                    && final(self).io_view() == old(self).io_view().drop_first(),
                Err(_) => final(self).io_view() == old(self).io_view(),
            }),
            r is Ok <==> old(self).io_view().len() > 0,
    {
        if self.pos < self.bytes.len() {
            let b = self.bytes[self.pos];
            self.pos = self.pos + 1;
            proof {
                assert(self.bytes@.skip(self.pos as int) =~= old(self).io_view().drop_first());
            }
            Ok(b)
        } else {
            proof {
                assert(old(self).io_view().len() == 0);
            }
            Err(end_of_input_error())
        }
    }
}

impl BytesWriter {
    /// An empty sink.
    pub fn new() -> (r: BytesWriter)
        ensures
            r.io_view() == Seq::<u8>::empty(),
    {
        let r = BytesWriter { bytes: Vec::new() };
        r
    }

    /// The bytes accepted so far.
    pub fn into_bytes(self) -> (r: Vec<u8>)
        ensures
            r@ == self.io_view(),
    {
        self.bytes
    }
}

impl InterprIOOut for BytesWriter {
    closed spec fn io_view(&self) -> Seq<u8> {
        self.bytes@
    }

    fn putchar(&mut self, ch: u8) -> (r: Result<(), std::io::Error>)
        ensures
            (match r {
                Ok(_) => final(self).io_view() == old(self).io_view().push(ch),
                Err(_) => final(self).io_view() == old(self).io_view(),
            }),
            r is Ok,
    {
        self.bytes.push(ch);
        Ok(())
    }

    fn flush(&mut self) -> (r: Result<(), std::io::Error>)
        ensures
            final(self).io_view() == old(self).io_view(),
            r is Ok,
    {
        Ok(())
    }
}

/// Interpreter
#[derive(Debug)]
pub struct Interpreter<In: InterprIOIn, Out: InterprIOOut> {
    /// Data tape for the interpreter
    pub tape: Vec<u8>,
    /// Current pointer location on the tape
    pub data_pointer: usize,
    /// input for the Getchar instruction
    pub io_in: In,
    /// output for the Putchar instruction
    pub io_out: Out,
}

/// Builder for [`Interpreter`]
#[derive(Debug)]
pub struct InterpreterBuilder<In: InterprIOIn, Out: InterprIOOut> {
    io_in: In,
    io_out: Out,
}

impl Interpreter<BytesReader, BytesWriter> {
    /// Create a builder for [`Interpreter`]; without further choices it
    /// reads from an empty buffer and writes to memory.
    pub fn builder() -> (r: InterpreterBuilder<BytesReader, BytesWriter>)
        ensures
            r.builder_in().io_view() == Seq::<u8>::empty(),
            r.builder_out().io_view() == Seq::<u8>::empty(),
    {
        InterpreterBuilder::new()
    }
}

impl<In: InterprIOIn, Out: InterprIOOut> Interpreter<In, Out> {
    /// Clear the interpreter's tape & set the data pointer to 0
    pub fn reset(&mut self)
        ensures
            final(self).tape@ == Seq::<u8>::empty(),
            final(self).data_pointer == 0,
            final(self).io_in == old(self).io_in,
            final(self).io_out == old(self).io_out,
    {
        self.data_pointer = 0;
        self.tape.clear();
    }
}

impl InterpreterBuilder<BytesReader, BytesWriter> {
    /// Create a new [`InterpreterBuilder`] with in-memory streams.
    pub fn new() -> (r: InterpreterBuilder<BytesReader, BytesWriter>)
        ensures
            r.builder_in().io_view() == Seq::<u8>::empty(),
            r.builder_out().io_view() == Seq::<u8>::empty(),
    {
        InterpreterBuilder { io_in: BytesReader::new(Vec::new()), io_out: BytesWriter::new() }
    }
}

impl<In: InterprIOIn, Out: InterprIOOut> InterpreterBuilder<In, Out> {
    /// The chosen input stream.
    pub closed spec fn builder_in(&self) -> In {
        self.io_in
    }

    /// The chosen output stream.
    pub closed spec fn builder_out(&self) -> Out {
        self.io_out
    }

    /// Finish building the [`Interpreter`] and return it
    pub fn build(self) -> (r: Interpreter<In, Out>)
        ensures
            r.tape@ == Seq::<u8>::empty(),
            r.data_pointer == 0,
            r.io_in == self.builder_in(),
            r.io_out == self.builder_out(),
    {
        Interpreter { tape: Vec::new(), data_pointer: 0, io_in: self.io_in, io_out: self.io_out }
    }

    /// set the input stream
    pub fn set_stdin<In2: InterprIOIn>(self, io_in: In2) -> (r: InterpreterBuilder<In2, Out>)
        ensures
            r.builder_in() == io_in,
            r.builder_out() == self.builder_out(),
    {
        InterpreterBuilder { io_in, io_out: self.io_out }
    }

    /// set the output stream
    pub fn set_stdout<Out2: InterprIOOut>(self, io_out: Out2) -> (r: InterpreterBuilder<In, Out2>)
        ensures
            r.builder_in() == self.builder_in(),
            r.builder_out() == io_out,
    {
        InterpreterBuilder { io_in: self.io_in, io_out }
    }
}


/// A UTF-8 continuation byte.
pub open spec fn utf8_cont(b: u8) -> bool {
    0x80 <= b <= 0xbf
}

/// Well-formed UTF-8, byte for byte as the standard library accepts it:
/// no overlong forms, no surrogates, nothing past U+10FFFF.
pub open spec fn is_utf8(s: Seq<u8>) -> bool
    decreases s.len(),
{
    if s.len() == 0 {
        true
    } else {
        let b0 = s[0];
        if b0 < 0x80 {
            is_utf8(s.skip(1))
        } else if 0xc2 <= b0 <= 0xdf {
            s.len() >= 2 && utf8_cont(s[1]) && is_utf8(s.skip(2))
        } else if b0 == 0xe0 {
            s.len() >= 3 && 0xa0 <= s[1] <= 0xbf && utf8_cont(s[2]) && is_utf8(s.skip(3))
        } else if 0xe1 <= b0 <= 0xec {
            s.len() >= 3 && utf8_cont(s[1]) && utf8_cont(s[2]) && is_utf8(s.skip(3))
        } else if b0 == 0xed {
            s.len() >= 3 && 0x80 <= s[1] <= 0x9f && utf8_cont(s[2]) && is_utf8(s.skip(3))
        } else if 0xee <= b0 <= 0xef {
            s.len() >= 3 && utf8_cont(s[1]) && utf8_cont(s[2]) && is_utf8(s.skip(3))
        } else if b0 == 0xf0 {
            s.len() >= 4 && 0x90 <= s[1] <= 0xbf && utf8_cont(s[2]) && utf8_cont(s[3]) && is_utf8(
                s.skip(4),
            )
        } else if 0xf1 <= b0 <= 0xf3 {
            s.len() >= 4 && utf8_cont(s[1]) && utf8_cont(s[2]) && utf8_cont(s[3]) && is_utf8(
                s.skip(4),
            )
        } else if b0 == 0xf4 {
            s.len() >= 4 && 0x80 <= s[1] <= 0x8f && utf8_cont(s[2]) && utf8_cont(s[3]) && is_utf8(
                s.skip(4),
            )
        } else {
            false
        }
    }
}

/// `n` space bytes.
pub open spec fn spaces(n: nat) -> Seq<u8> {
    Seq::new(n, |i: int| 32u8)
}

/// What a buffer flush hands to the sink: the bytes themselves when they
/// are well-formed UTF-8, one space per byte when they are not.
pub open spec fn flush_repr(b: Seq<u8>) -> Seq<u8> {
    if is_utf8(b) {
        b
    } else {
        spaces(b.len())
    }
}

/// Decide well-formed UTF-8.
fn is_valid_utf8(buf: &Vec<u8>) -> (r: bool)
    ensures
        r == is_utf8(buf@),
{
    let n = buf.len();
    let mut i: usize = 0;
    proof {
        assert(buf@.skip(0) =~= buf@);
    }
    while i < n
        invariant
            i <= n,
            n == buf@.len(),
            is_utf8(buf@) == is_utf8(buf@.skip(i as int)),
        decreases n - i,
    {
        let ghost rem = buf@.skip(i as int);
        proof {
            assert(rem[0] == buf@[i as int]);
        }
        let b0 = buf[i];
        let k: usize = if b0 < 0x80 {
            1
        } else if 0xc2 <= b0 && b0 <= 0xdf {
            if n - i < 2 || !(0x80 <= buf[i + 1] && buf[i + 1] <= 0xbf) {
                return false;
            }
            2
        } else if b0 == 0xe0 {
            if n - i < 3 || !(0xa0 <= buf[i + 1] && buf[i + 1] <= 0xbf) || !(0x80 <= buf[i + 2]
                && buf[i + 2] <= 0xbf) {
                return false;
            }
            3
        } else if 0xe1 <= b0 && b0 <= 0xec {
            if n - i < 3 || !(0x80 <= buf[i + 1] && buf[i + 1] <= 0xbf) || !(0x80 <= buf[i + 2]
                && buf[i + 2] <= 0xbf) {
                return false;
            }
            3
        } else if b0 == 0xed {
            if n - i < 3 || !(0x80 <= buf[i + 1] && buf[i + 1] <= 0x9f) || !(0x80 <= buf[i + 2]
                && buf[i + 2] <= 0xbf) {
                return false;
            }
            3
        } else if 0xee <= b0 && b0 <= 0xef {
            if n - i < 3 || !(0x80 <= buf[i + 1] && buf[i + 1] <= 0xbf) || !(0x80 <= buf[i + 2]
                && buf[i + 2] <= 0xbf) {
                return false;
            }
            3
        } else if b0 == 0xf0 {
            if n - i < 4 || !(0x90 <= buf[i + 1] && buf[i + 1] <= 0xbf) || !(0x80 <= buf[i + 2]
                && buf[i + 2] <= 0xbf) || !(0x80 <= buf[i + 3] && buf[i + 3] <= 0xbf) {
                return false;
            }
            4
        } else if 0xf1 <= b0 && b0 <= 0xf3 {
            if n - i < 4 || !(0x80 <= buf[i + 1] && buf[i + 1] <= 0xbf) || !(0x80 <= buf[i + 2]
                && buf[i + 2] <= 0xbf) || !(0x80 <= buf[i + 3] && buf[i + 3] <= 0xbf) {
                return false;
            }
            4
        } else if b0 == 0xf4 {
            if n - i < 4 || !(0x80 <= buf[i + 1] && buf[i + 1] <= 0x8f) || !(0x80 <= buf[i + 2]
                && buf[i + 2] <= 0xbf) || !(0x80 <= buf[i + 3] && buf[i + 3] <= 0xbf) {
                return false;
            }
            4
        } else {
            return false;
        };
        proof {
            if 1 < rem.len() {
                assert(rem[1] == buf@[i + 1]);
            }
            if 2 < rem.len() {
                assert(rem[2] == buf@[i + 2]);
            }
            if 3 < rem.len() {
                assert(rem[3] == buf@[i + 3]);
            }
            assert(rem.skip(k as int) =~= buf@.skip(i + k));
        }
        i = i + k;
    }
    proof {
        assert(buf@.skip(n as int) =~= Seq::<u8>::empty());
    }
    true
}

/// Wrapper for output sinks that groups bytes into whole UTF-8
/// characters: ASCII passes through at once, other bytes are buffered
/// until they form a valid sequence or seven of them accumulate; an
/// invalid buffer is flushed as one space per byte.
pub struct DefaultWriter<T: InterprIOOut> {
    inner: T,
    buf: Vec<u8>,
    accepted: Ghost<Seq<u8>>,
}

impl<T: InterprIOOut> DefaultWriter<T> {
    /// The bytes waiting for the rest of their character.
    pub closed spec fn buffered(&self) -> Seq<u8> {
        self.buf@
    }

    /// The sink the writer feeds.
    pub closed spec fn sink(&self) -> T {
        self.inner
    }

    /// Create new writer
    pub fn new(inner: T) -> (r: Self)
        ensures
            r.buffered() == Seq::<u8>::empty(),
            r.sink() == inner,
            r.io_view() == inner.io_view(),
    {
        let r = DefaultWriter { inner, buf: Vec::new(), accepted: Ghost(inner.io_view()) };
        proof {
            assert(r.buffered() =~= Seq::<u8>::empty());
        }
        r
    }

    /// Give the sink back, abandoning whatever is still buffered.
    pub fn into_inner(self) -> (r: T)
        ensures
            r == self.sink(),
    {
        self.inner
    }

    /// Accept one byte: ASCII flushes the buffer and passes through,
    /// anything else is buffered until a character is complete or seven
    /// bytes accumulate.
    fn write_byte(&mut self, v: u8) -> (r: Result<(), std::io::Error>)
        ensures
            (match r {
                Ok(_) => if v < 0x80 {
                    final(self).buffered() == Seq::<u8>::empty() && final(self).sink().io_view()
                        == old(self).sink().io_view() + (if old(self).buffered().len() > 0 {
                        flush_repr(old(self).buffered())
                    } else {
                        Seq::<u8>::empty()
                    }) + seq![v]
                } else {
                    {
                        let nb = old(self).buffered().push(v);
                        if nb.len() == 7 || is_utf8(nb) {
                            final(self).buffered() == Seq::<u8>::empty() && final(self).sink().io_view() == old(self).sink().io_view() + flush_repr(nb)
                        } else {
                            final(self).buffered() == nb && final(self).sink().io_view() == old(self).sink().io_view()
                        }
                    }
                },
                Err(_) => true,
            }),
            final(self).io_view() == old(self).io_view(),
    {
        if v < 0x80 {
            if self.buf.len() != 0 {
                // an ascii byte can't continue a utf-8 sequence
                self.force_write()?;
            }
            let ghost mid = self.inner.io_view();
            let r = self.inner.putchar(v);
            match r {
                Ok(_) => {
                    proof {
                        assert(self.inner.io_view() =~= mid + seq![v]);
                        if old(self).buffered().len() == 0 {
                            assert(old(self).sink().io_view() + Seq::<u8>::empty() + seq![v]
                                =~= old(self).sink().io_view() + seq![v]);
                        }
                    }
                    Ok(())
                },
                Err(e) => Err(e),
            }
        } else {
            self.buf.push(v);
            self.try_write()
        }
    }

    /// Flush the buffer when it is a complete character or full.
    fn try_write(&mut self) -> (r: Result<(), std::io::Error>)
        ensures
            (match r {
                Ok(_) => if old(self).buffered().len() == 7 || is_utf8(old(self).buffered()) {
                    final(self).buffered() == Seq::<u8>::empty() && final(self).sink().io_view()
                        == old(self).sink().io_view() + flush_repr(old(self).buffered())
                } else {
                    final(self).buffered() == old(self).buffered() && final(self).sink().io_view()
                        == old(self).sink().io_view()
                },
                Err(_) => true,
            }),
            final(self).io_view() == old(self).io_view(),
    {
        let full = self.buf.len() == 7;
        let valid = is_valid_utf8(&self.buf);
        if full || valid {
            self.force_write()
        } else {
            Ok(())
        }
    }

    /// Write the buffer out: as it stands when it is well-formed UTF-8,
    /// as one space per byte when it is not; then empty it.
    fn force_write(&mut self) -> (r: Result<(), std::io::Error>)
        ensures
            (match r {
                Ok(_) => final(self).buffered() == Seq::<u8>::empty() && final(self).sink().io_view() == old(self).sink().io_view() + flush_repr(
                    old(self).buffered(),
                ),
                Err(_) => true,
            }),
            final(self).io_view() == old(self).io_view(),
    {
        let ghost b0 = self.buf@;
        let ghost s0 = self.inner.io_view();
        let n = self.buf.len();
        let valid = is_valid_utf8(&self.buf);
        let mut i: usize = 0;
        while i < n
            invariant
                i <= n,
                n == self.buf@.len(),
                self.buf@ == b0,
                valid == is_utf8(b0),
                self.accepted == old(self).accepted,
                self.inner.io_view() == s0 + (if valid {
                    b0.subrange(0, i as int)
                } else {
                    spaces(i as nat)
                }),
            decreases n - i,
        {
            let ghost mid = self.inner.io_view();
            let ch: u8 = if valid {
                self.buf[i]
            } else {
                // fill with a space instead of invalid utf-8
                32
            };
            let r = self.inner.putchar(ch);
            match r {
                Ok(_) => {},
                Err(e) => {
                    return Err(e);
                },
            }
            proof {
                if valid {
                    assert(self.inner.io_view() =~= s0 + b0.subrange(0, i + 1));
                } else {
                    assert(self.inner.io_view() =~= s0 + spaces((i + 1) as nat));
                }
            }
            i = i + 1;
        }
        self.buf.clear();
        proof {
            if valid {
                assert(b0.subrange(0, n as int) =~= b0);
            }
            assert(self.buffered() =~= Seq::<u8>::empty());
        }
        Ok(())
    }
}

impl<T: InterprIOOut> InterprIOOut for DefaultWriter<T> {
    closed spec fn io_view(&self) -> Seq<u8> {
        self.accepted@
    }

    fn putchar(&mut self, ch: u8) -> (r: Result<(), std::io::Error>)
        ensures
            (match r {
                Ok(_) => final(self).io_view() == old(self).io_view().push(ch),
                Err(_) => final(self).io_view() == old(self).io_view(),
            }),
    {
        let r = self.write_byte(ch);
        match r {
            Ok(_) => {
                proof {
                    assert(self.io_view() == old(self).io_view());
                }
                self.accepted = Ghost(self.accepted@.push(ch));
                Ok(())
            },
            Err(e) => Err(e),
        }
    }

    fn flush(&mut self) -> (r: Result<(), std::io::Error>)
        ensures
            final(self).io_view() == old(self).io_view(),
    {
        self.force_write()?;
        self.inner.flush()
    }
}


impl Default for InterpreterBuilder<BytesReader, BytesWriter> {
    /// A builder over the in-memory streams.
    fn default() -> (r: Self)
        ensures
            r.builder_in().io_view() == Seq::<u8>::empty(),
            r.builder_out().io_view() == Seq::<u8>::empty(),
    {
        InterpreterBuilder::new()
    }
}

impl Default for Interpreter<BytesReader, BytesWriter> {
    /// A fresh interpreter over the in-memory streams.
    fn default() -> (r: Self)
        ensures
            r.tape@ == Seq::<u8>::empty(),
            r.data_pointer == 0,
            r.io_in.io_view() == Seq::<u8>::empty(),
            r.io_out.io_view() == Seq::<u8>::empty(),
    {
        InterpreterBuilder::default().build()
    }
}


/// The character for one decimal digit.
pub open spec fn digit_char(d: nat) -> char {
    if d == 0 {
        '0'
    } else if d == 1 {
        '1'
    } else if d == 2 {
        '2'
    } else if d == 3 {
        '3'
    } else if d == 4 {
        '4'
    } else if d == 5 {
        '5'
    } else if d == 6 {
        '6'
    } else if d == 7 {
        '7'
    } else if d == 8 {
        '8'
    } else {
        '9'
    }
}

/// A number in decimal, most significant digit first.
pub open spec fn dec_v(n: nat) -> Seq<char>
    decreases n,
{
    if n < 10 {
        seq![digit_char(n)]
    } else {
        dec_v(n / 10).push(digit_char(n % 10))
    }
}

/// Append one decimal digit.
fn append_digit(s: &mut String, d: u8)
    requires
        d < 10,
    ensures
        final(s)@ == old(s)@.push(digit_char(d as nat)),
{
    let ghost s0 = s@;
    if d == 0 {
        s.append("0");
        proof {
            reveal_strlit("0");
            assert(s@ =~= s0.push('0'));
        }
    } else if d == 1 {
        s.append("1");
        proof {
            reveal_strlit("1");
            assert(s@ =~= s0.push('1'));
        }
    } else if d == 2 {
        s.append("2");
        proof {
            reveal_strlit("2");
            assert(s@ =~= s0.push('2'));
        }
    } else if d == 3 {
        s.append("3");
        proof {
            reveal_strlit("3");
            assert(s@ =~= s0.push('3'));
        }
    } else if d == 4 {
        s.append("4");
        proof {
            reveal_strlit("4");
            assert(s@ =~= s0.push('4'));
        }
    } else if d == 5 {
        s.append("5");
        proof {
            reveal_strlit("5");
            assert(s@ =~= s0.push('5'));
        }
    } else if d == 6 {
        s.append("6");
        proof {
            reveal_strlit("6");
            assert(s@ =~= s0.push('6'));
        }
    } else if d == 7 {
        s.append("7");
        proof {
            reveal_strlit("7");
            assert(s@ =~= s0.push('7'));
        }
    } else if d == 8 {
        s.append("8");
        proof {
            reveal_strlit("8");
            assert(s@ =~= s0.push('8'));
        }
    } else {
        s.append("9");
        proof {
            reveal_strlit("9");
            assert(s@ =~= s0.push('9'));
        }
    }
}

/// Append a number in decimal.
fn append_u32(s: &mut String, n: u32)
    ensures
        final(s)@ == old(s)@ + dec_v(n as nat),
    decreases n,
{
    let ghost s0 = s@;
    if n >= 10 {
        append_u32(s, n / 10);
        append_digit(s, (n % 10) as u8);
        proof {
            assert(s@ =~= s0 + dec_v(n as nat));
        }
    } else {
        append_digit(s, n as u8);
        proof {
            assert(s@ =~= s0 + dec_v(n as nat));
        }
    }
}

/// The listing line of one opcode.
pub open spec fn op_line(i: InterpIns) -> Seq<char> {
    match i {
        InterpIns::Store { val, offset } => ("set ")@ + dec_v(val as nat) + (", [")@ + dec_v(
            offset as nat,
        ) + ("]\n")@,
        InterpIns::Add { val, offset } => ("add ")@ + dec_v(val as nat) + (", [")@ + dec_v(
            offset as nat,
        ) + ("]\n")@,
        InterpIns::Sub { val, offset } => ("sub ")@ + dec_v(val as nat) + (", [")@ + dec_v(
            offset as nat,
        ) + ("]\n")@,
        InterpIns::Mul { val, offset } => ("mul ")@ + dec_v(val as nat) + (", [")@ + dec_v(
            offset as nat,
        ) + ("]\n")@,
        InterpIns::PtrAdd { offset } => ("ptr_add ")@ + dec_v(offset as nat) + ("\n")@,
        InterpIns::PtrSub { offset } => ("ptr_sub ")@ + dec_v(offset as nat) + ("\n")@,
        InterpIns::SetInputOffset { new_input_offset } => ("set_input_offset ")@ + dec_v(
            new_input_offset as nat,
        ) + ("\n")@,
        InterpIns::AddMove { mul, to } => ("add_move [input_offset]*")@ + dec_v(mul as nat) + (
        ", [")@ + dec_v(to as nat) + ("]\n")@,
        InterpIns::SubMove { mul, to } => ("sub_move [input_offset]*")@ + dec_v(mul as nat) + (
        ", [")@ + dec_v(to as nat) + ("]\n")@,
        InterpIns::MulMove { mul, to } => ("mul_move [input_offset]*")@ + dec_v(mul as nat) + (
        ", [")@ + dec_v(to as nat) + ("]\n")@,
        InterpIns::Move { to } => ("move [input_offset], [")@ + dec_v(to as nat) + ("]\n")@,
        InterpIns::Copy { to } => ("copy [input_offset], [")@ + dec_v(to as nat) + ("]\n")@,
        InterpIns::Putchar { offset } => ("putchar [")@ + dec_v(offset as nat) + ("]\n")@,
        InterpIns::Getchar { offset } => ("getchar [")@ + dec_v(offset as nat) + ("]\n")@,
        InterpIns::JmpT { dest } => ("jmp_t [input_offset], '")@ + dec_v(dest as nat) + ("\n")@,
        InterpIns::JmpF { dest } => ("jmp_f [input_offset], '")@ + dec_v(dest as nat) + ("\n")@,
        InterpIns::Jmp { dest } => ("jmp '")@ + dec_v(dest as nat) + ("\n")@,
    }
}

/// The listing of a whole code block, one opcode per line.
pub open spec fn listing_v(s: Seq<InterpIns>) -> Seq<char>
    decreases s.len(),
{
    if s.len() == 0 {
        Seq::empty()
    } else {
        listing_v(s.drop_last()) + op_line(s.last())
    }
}

impl InterpCode {
    /// Render the code as an opcode listing, one instruction per line.
    pub fn to_text(&self) -> (r: String)
        ensures
            r@ == listing_v(self.0@),
    {
        let mut out = String::new();
        let mut i: usize = 0;
        proof {
            assert(self.0@.subrange(0, 0) =~= Seq::<InterpIns>::empty());
        }
        while i < self.0.len()
            invariant
                i <= self.0@.len(),
                out@ == listing_v(self.0@.subrange(0, i as int)),
            decreases self.0@.len() - i,
        {
            let ghost o0 = out@;
            proof {
                assert(self.0@.subrange(0, i + 1).drop_last() =~= self.0@.subrange(0, i as int));
                assert(self.0@.subrange(0, i + 1).last() == self.0@[i as int]);
            }
            match self.0[i] {
                InterpIns::Store { val, offset } => {
                    out.append("set ");
                    append_u32(&mut out, val as u32);
                    out.append(", [");
                    append_u32(&mut out, offset);
                    out.append("]\n");
                    proof {
                        reveal_strlit("set ");
                        reveal_strlit(", [");
                        reveal_strlit("]\n");
                        assert(out@ =~= o0 + op_line(self.0@[i as int]));
                    }
                },
                InterpIns::Add { val, offset } => {
                    out.append("add ");
                    append_u32(&mut out, val as u32);
                    out.append(", [");
                    append_u32(&mut out, offset);
                    out.append("]\n");
                    proof {
                        reveal_strlit("add ");
                        reveal_strlit(", [");
                        reveal_strlit("]\n");
                        assert(out@ =~= o0 + op_line(self.0@[i as int]));
                    }
                },
                InterpIns::Sub { val, offset } => {
                    out.append("sub ");
                    append_u32(&mut out, val as u32);
                    out.append(", [");
                    append_u32(&mut out, offset);
                    out.append("]\n");
                    proof {
                        reveal_strlit("sub ");
                        reveal_strlit(", [");
                        reveal_strlit("]\n");
                        assert(out@ =~= o0 + op_line(self.0@[i as int]));
                    }
                },
                InterpIns::Mul { val, offset } => {
                    out.append("mul ");
                    append_u32(&mut out, val as u32);
                    out.append(", [");
                    append_u32(&mut out, offset);
                    out.append("]\n");
                    proof {
                        reveal_strlit("mul ");
                        reveal_strlit(", [");
                        reveal_strlit("]\n");
                        assert(out@ =~= o0 + op_line(self.0@[i as int]));
                    }
                },
                InterpIns::PtrAdd { offset } => {
                    out.append("ptr_add ");
                    append_u32(&mut out, offset);
                    out.append("\n");
                    proof {
                        reveal_strlit("ptr_add ");
                        reveal_strlit("\n");
                        assert(out@ =~= o0 + op_line(self.0@[i as int]));
                    }
                },
                InterpIns::PtrSub { offset } => {
                    out.append("ptr_sub ");
                    append_u32(&mut out, offset);
                    out.append("\n");
                    proof {
                        reveal_strlit("ptr_sub ");
                        reveal_strlit("\n");
                        assert(out@ =~= o0 + op_line(self.0@[i as int]));
                    }
                },
                InterpIns::SetInputOffset { new_input_offset } => {
                    out.append("set_input_offset ");
                    append_u32(&mut out, new_input_offset);
                    out.append("\n");
                    proof {
                        reveal_strlit("set_input_offset ");
                        reveal_strlit("\n");
                        assert(out@ =~= o0 + op_line(self.0@[i as int]));
                    }
                },
                InterpIns::AddMove { mul, to } => {
                    out.append("add_move [input_offset]*");
                    append_u32(&mut out, mul as u32);
                    out.append(", [");
                    append_u32(&mut out, to);
                    out.append("]\n");
                    proof {
                        reveal_strlit("add_move [input_offset]*");
                        reveal_strlit(", [");
                        reveal_strlit("]\n");
                        assert(out@ =~= o0 + op_line(self.0@[i as int]));
                    }
                },
                InterpIns::SubMove { mul, to } => {
                    out.append("sub_move [input_offset]*");
                    append_u32(&mut out, mul as u32);
                    out.append(", [");
                    append_u32(&mut out, to);
                    out.append("]\n");
                    proof {
                        reveal_strlit("sub_move [input_offset]*");
                        reveal_strlit(", [");
                        reveal_strlit("]\n");
                        assert(out@ =~= o0 + op_line(self.0@[i as int]));
                    }
                },
                InterpIns::MulMove { mul, to } => {
                    out.append("mul_move [input_offset]*");
                    append_u32(&mut out, mul as u32);
                    out.append(", [");
                    append_u32(&mut out, to);
                    out.append("]\n");
                    proof {
                        reveal_strlit("mul_move [input_offset]*");
                        reveal_strlit(", [");
                        reveal_strlit("]\n");
                        assert(out@ =~= o0 + op_line(self.0@[i as int]));
                    }
                },
                InterpIns::Move { to } => {
                    out.append("move [input_offset], [");
                    append_u32(&mut out, to);
                    out.append("]\n");
                    proof {
                        reveal_strlit("move [input_offset], [");
                        reveal_strlit("]\n");
                        assert(out@ =~= o0 + op_line(self.0@[i as int]));
                    }
                },
                InterpIns::Copy { to } => {
                    out.append("copy [input_offset], [");
                    append_u32(&mut out, to);
                    out.append("]\n");
                    proof {
                        reveal_strlit("copy [input_offset], [");
                        reveal_strlit("]\n");
                        assert(out@ =~= o0 + op_line(self.0@[i as int]));
                    }
                },
                InterpIns::Putchar { offset } => {
                    out.append("putchar [");
                    append_u32(&mut out, offset);
                    out.append("]\n");
                    proof {
                        reveal_strlit("putchar [");
                        reveal_strlit("]\n");
                        assert(out@ =~= o0 + op_line(self.0@[i as int]));
                    }
                },
                InterpIns::Getchar { offset } => {
                    out.append("getchar [");
                    append_u32(&mut out, offset);
                    out.append("]\n");
                    proof {
                        reveal_strlit("getchar [");
                        reveal_strlit("]\n");
                        assert(out@ =~= o0 + op_line(self.0@[i as int]));
                    }
                },
                InterpIns::JmpT { dest } => {
                    out.append("jmp_t [input_offset], '");
                    append_u32(&mut out, dest);
                    out.append("\n");
                    proof {
                        reveal_strlit("jmp_t [input_offset], '");
                        reveal_strlit("\n");
                        assert(out@ =~= o0 + op_line(self.0@[i as int]));
                    }
                },
                InterpIns::JmpF { dest } => {
                    out.append("jmp_f [input_offset], '");
                    append_u32(&mut out, dest);
                    out.append("\n");
                    proof {
                        reveal_strlit("jmp_f [input_offset], '");
                        reveal_strlit("\n");
                        assert(out@ =~= o0 + op_line(self.0@[i as int]));
                    }
                },
                InterpIns::Jmp { dest } => {
                    out.append("jmp '");
                    append_u32(&mut out, dest);
                    out.append("\n");
                    proof {
                        reveal_strlit("jmp '");
                        reveal_strlit("\n");
                        assert(out@ =~= o0 + op_line(self.0@[i as int]));
                    }
                },
            }
            i = i + 1;
        }
        proof {
            assert(self.0@.subrange(0, self.0@.len() as int) =~= self.0@);
        }
        out
    }
}

} // verus!
