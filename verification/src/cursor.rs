//! A stream of bytes held in memory, read one byte or one token at a time.
use crate::token::{ends_token, lemma_token_end, next_start, stopped, token_at};
use vstd::prelude::*;

verus! {

/// What a `ByteCursor` stands for: all the bytes of the stream, and how many
/// of them have been read.
pub struct CursorView {
    pub bytes: Seq<u8>,
    pub position: int,
}

impl CursorView {
    /// The position lies within the stream or at its end.
    pub open spec fn wf(self) -> bool {
        0 <= self.position <= self.bytes.len()
    }

    /// Every byte has been read.
    pub open spec fn at_end(self) -> bool {
        self.position == self.bytes.len()
    }
}

/// A stream of bytes that is read from front to back, one byte at a time.
pub struct ByteCursor {
    bytes: Vec<u8>,
    position: usize,
}

impl View for ByteCursor {
    type V = CursorView;

    closed spec fn view(&self) -> CursorView {
        CursorView { bytes: self.bytes@, position: self.position as int }
    }
}

impl ByteCursor {
    /// Holds of every cursor: its position lies within its stream.
    #[verifier::type_invariant]
    pub open spec fn within_bounds(&self) -> bool {
        self@.wf()
    }

    /// A cursor at the front of `bytes`.
    pub fn new(bytes: Vec<u8>) -> (cursor: ByteCursor)
        ensures
            cursor@.bytes == bytes@,
            cursor@.position == 0,
            cursor@.wf(),
    {
        ByteCursor { bytes, position: 0 }
    }

    /// How many bytes have been read.
    pub fn position(&self) -> (position: usize)
        ensures
            position == self@.position,
            self@.wf(),
    {
        proof {
            use_type_invariant(self);
        }
        self.position
    }

    /// Reads one byte: the byte under the cursor, which then moves one byte
    /// on, or `None` at the end of the stream, where the cursor stays.
    pub fn next_byte(&mut self) -> (byte: Option<u8>)
        ensures
            final(self)@.wf(),
            final(self)@.bytes == old(self)@.bytes,
            byte == if old(self)@.at_end() {
                None
            } else {
                Some(old(self)@.bytes[old(self)@.position])
            },
            final(self)@.position == if old(self)@.at_end() {
                old(self)@.position
            } else {
                old(self)@.position + 1
            },
    {
        proof {
            use_type_invariant(&*self);
        }
        if self.position < self.bytes.len() {
            let byte = self.bytes[self.position];
            self.position = self.position + 1;
            Some(byte)
        } else {
            None
        }
    }
}

/// Whether `byte` is one of `set`.
fn contains_byte(set: &[u8], byte: u8) -> (found: bool)
    ensures
        found == set@.contains(byte),
{
    let mut i: usize = 0;
    while i < set.len()
        invariant
            i <= set.len(),
            forall|j: int| 0 <= j < i ==> set@[j] != byte,
        decreases set.len() - i,
    {
        if set[i] == byte {
            return true;
        }
        i += 1;
    }
    false
}

/// One step of a scan. `event` is what the source gave: a byte, or `None` at
/// its end. A byte that is not in `delimiters` is appended to `buffer` and the
/// scan goes on (`true`); a byte of `delimiters` and the end of the source
/// leave `buffer` as it is and end the scan (`false`).
pub fn accept(event: Option<u8>, delimiters: &[u8], buffer: &mut Vec<u8>) -> (more: bool)
    ensures
        more <==> (event is Some && !delimiters@.contains(event->0)),
        final(buffer)@ == if more {
            old(buffer)@.push(event->0)
        } else {
            old(buffer)@
        },
{
    match event {
        None => false,
        Some(byte) => {
            if contains_byte(delimiters, byte) {
                false
            } else {
                buffer.push(byte);
                true
            }
        },
    }
}

/// Takes one token from `reader`: reads up to and including the first byte
/// that is in `delimiters`, or up to the end of the stream, and appends the
/// bytes before that delimiter to `buffer`. Returns how many bytes were
/// appended.
pub fn read_until(
    reader: &mut ByteCursor,
    delimiters: &[u8],
    buffer: &mut Vec<u8>,
) -> (total_read: usize)
    ensures
        final(reader)@.wf(),
        final(reader)@.bytes == old(reader)@.bytes,
        final(reader)@.position == next_start(
            old(reader)@.bytes,
            old(reader)@.position,
            delimiters@,
        ),
        final(buffer)@ == old(buffer)@ + token_at(
            old(reader)@.bytes,
            old(reader)@.position,
            delimiters@,
        ),
        total_read == token_at(old(reader)@.bytes, old(reader)@.position, delimiters@).len(),
        final(reader)@.position == old(reader)@.position + total_read + if stopped(
            old(reader)@.bytes,
            old(reader)@.position,
            delimiters@,
        ) {
            1int
        } else {
            0int
        },
        !old(reader)@.at_end() ==> final(reader)@.position > old(reader)@.position,
{
    proof {
        use_type_invariant(&*reader);
    }
    let ghost bytes = reader@.bytes;
    let ghost start = reader@.position;
    let ghost stops = delimiters@;
    let ghost held = buffer@;
    let mut total_read: usize = 0;
    loop
        invariant_except_break
            total_read == reader@.position - start,
            buffer@ == held + bytes.subrange(start, reader@.position),
        invariant
            reader@.wf(),
            reader@.bytes == bytes,
            stops == delimiters@,
            0 <= start <= reader@.position,
            forall|i: int| start <= i < start + total_read ==> !stops.contains(#[trigger] bytes[i]),
        ensures
            ends_token(bytes, start, stops, start + total_read),
            buffer@ == held + bytes.subrange(start, start + total_read),
            reader@.position == if start + total_read < bytes.len() {
                start + total_read + 1
            } else {
                start + total_read
            },
        decreases bytes.len() - reader@.position,
    {
        let event = reader.next_byte();
        if !accept(event, delimiters, buffer) {
            break ;
        }
        assert(bytes.subrange(start, reader@.position) == bytes.subrange(
            start,
            reader@.position - 1,
        ).push(event->0));
        total_read += 1;
    }
    proof {
    }
    total_read
}

} // verus!
