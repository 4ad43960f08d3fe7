//! Stream buffers: cursor-based reading and writing over byte regions.
//!
//! A read buffer walks over a byte source and can step back to where its
//! last read began. A write buffer fills a growable or a fixed region and
//! remembers how far it has ever come, so that it shows exactly what was
//! written and nothing of the room behind it.

use vstd::prelude::*;
use vstd::utf8::encode_utf8;
use crate::endian::{overlay, overwrite};

verus! {

/// A value that holds bytes and can show them as a slice.
pub trait ByteSource {
    /// The bytes that the source holds.
    spec fn bytes(&self) -> Seq<u8>;

    /// The source as a slice.
    fn as_bytes(&self) -> (bytes: &[u8])
        ensures
            bytes@ == self.bytes(),
    ;
}

impl ByteSource for Vec<u8> {
    open spec fn bytes(&self) -> Seq<u8> {
        self@
    }

    fn as_bytes(&self) -> (bytes: &[u8]) {
        self.as_slice()
    }
}

impl<'a> ByteSource for &'a [u8] {
    open spec fn bytes(&self) -> Seq<u8> {
        (*self)@
    }

    fn as_bytes(&self) -> (bytes: &[u8]) {
        *self
    }
}

impl<'a> ByteSource for &'a Vec<u8> {
    open spec fn bytes(&self) -> Seq<u8> {
        (*self)@
    }

    fn as_bytes(&self) -> (bytes: &[u8]) {
        self.as_slice()
    }
}

impl<'a> ByteSource for &'a str {
    /// The text's encoding in UTF-8.
    open spec fn bytes(&self) -> Seq<u8> {
        encode_utf8((*self)@)
    }

    fn as_bytes(&self) -> (bytes: &[u8]) {
        str::as_bytes(*self)
    }
}

impl ByteSource for String {
    /// The text's encoding in UTF-8.
    open spec fn bytes(&self) -> Seq<u8> {
        encode_utf8(self@)
    }

    fn as_bytes(&self) -> (bytes: &[u8]) {
        str::as_bytes(self.as_str())
    }
}

impl<const N: usize> ByteSource for [u8; N] {
    open spec fn bytes(&self) -> Seq<u8> {
        self@
    }

    fn as_bytes(&self) -> (bytes: &[u8]) {
        self.as_slice()
    }
}

/// The smaller of two numbers.
pub open spec fn spec_min(a: nat, b: nat) -> nat {
    if a <= b {
        a
    } else {
        b
    }
}

/// The larger of two numbers.
pub open spec fn spec_max(a: nat, b: nat) -> nat {
    if a >= b {
        a
    } else {
        b
    }
}

/// A read buffer, as contracts see it.
pub struct ReadState {
    /// All bytes of the source.
    pub source: Seq<u8>,
    /// How many of them have been passed.
    pub position: nat,
    /// Where the last read began.
    pub checkpoint: nat,
    /// The caller's note of an expected length.
    pub size_hint: Option<usize>,
}

impl ReadState {
    /// The checkpoint is not ahead of the position, nor the position past
    /// the end of the source.
    pub open spec fn wf(self) -> bool {
        self.checkpoint <= self.position <= self.source.len()
    }

    /// A read buffer over `source` that has read nothing yet.
    pub open spec fn start(source: Seq<u8>) -> ReadState {
        ReadState { source, position: 0, checkpoint: 0, size_hint: None }
    }

    /// The number of bytes not yet passed.
    pub open spec fn available(self) -> nat {
        (self.source.len() - self.position) as nat
    }

    /// Whether every byte has been passed.
    pub open spec fn at_end(self) -> bool {
        self.position == self.source.len()
    }

    /// The bytes that a read into a destination of `room` bytes takes.
    pub open spec fn taken(self, room: nat) -> Seq<u8> {
        self.source.subrange(
            self.position as int,
            (self.position + spec_min(self.available(), room)) as int,
        )
    }

    /// The state after a read into a destination of `room` bytes.
    pub open spec fn read(self, room: nat) -> ReadState {
        ReadState {
            checkpoint: self.position,
            position: self.position + spec_min(self.available(), room),
            ..self
        }
    }

    /// The state after stepping back to the checkpoint.
    pub open spec fn rewind(self) -> ReadState {
        ReadState { position: self.checkpoint, ..self }
    }

    /// The state after giving up the rest of the source.
    pub open spec fn set_at_end(self) -> ReadState {
        ReadState { position: self.source.len(), ..self }
    }

    /// The state with the given size hint.
    pub open spec fn with_size_hint(self, size_hint: Option<usize>) -> ReadState {
        ReadState { size_hint, ..self }
    }
}

/// A stream reader that reads a byte source piece by piece.
pub struct StreamReadBuffer<T: ByteSource> {
    buffer: T,
    position: usize,
    rewind_position: usize,
    size_hint: Option<usize>,
}

impl<T: ByteSource> View for StreamReadBuffer<T> {
    type V = ReadState;

    closed spec fn view(&self) -> ReadState {
        ReadState {
            source: self.buffer.bytes(),
            position: self.position as nat,
            checkpoint: self.rewind_position as nat,
            size_hint: self.size_hint,
        }
    }
}

impl<T: ByteSource> StreamReadBuffer<T> {
    #[verifier::type_invariant]
    spec fn well_formed(self) -> bool {
        self@.wf()
    }

    /// A reader at the start of `buf`.
    pub fn new(buf: T) -> (reader: Self)
        ensures
            reader@ == ReadState::start(buf.bytes()),
            reader@.wf(),
    {
        StreamReadBuffer { buffer: buf, position: 0, rewind_position: 0, size_hint: None }
    }

    /// Notes an expected length. The reader does not act on it.
    pub fn set_size_hint(&mut self, size_hint: usize)
        ensures
            final(self)@ == old(self)@.with_size_hint(Some(size_hint)),
            final(self)@.wf(),
    {
        proof {
            use_type_invariant(&*self);
        }
        self.size_hint = Some(size_hint);
    }

    /// Whether a size hint is noted.
    pub fn has_size_hint(&self) -> (present: bool)
        ensures
            present == self@.size_hint is Some,
    {
        self.size_hint.is_some()
    }

    /// Hands out the size hint and forgets it.
    pub fn take_size_hint(&mut self) -> (size_hint: Option<usize>)
        ensures
            size_hint == old(self)@.size_hint,
            final(self)@ == old(self)@.with_size_hint(None),
            final(self)@.wf(),
    {
        proof {
            use_type_invariant(&*self);
        }
        let size_hint = self.size_hint;
        self.size_hint = None;
        size_hint
    }

    /// The size hint, which stays noted.
    pub fn peek_size_hint(&self) -> (size_hint: Option<usize>)
        ensures
            size_hint == self@.size_hint,
    {
        self.size_hint
    }

    /// Whether the reader has passed every byte of its source.
    pub fn at_end(&self) -> (ended: bool)
        ensures
            ended == self@.at_end(),
            self@.wf(),
    {
        proof {
            use_type_invariant(self);
        }
        self.position == self.buffer.as_bytes().len()
    }

    /// Steps back to where the last read began. A second call in a row
    /// changes nothing more.
    pub fn rewind(&mut self)
        ensures
            final(self)@ == old(self)@.rewind(),
            final(self)@.wf(),
    {
        proof {
            use_type_invariant(&*self);
        }
        self.position = self.rewind_position;
    }

    /// Moves to the end of the source and so gives up what was not read.
    pub fn set_at_end(&mut self)
        ensures
            final(self)@ == old(self)@.set_at_end(),
            final(self)@.wf(),
    {
        proof {
            use_type_invariant(&*self);
        }
        let len = self.buffer.as_bytes().len();
        self.position = len;
    }

    /// Copies as many of the bytes ahead as `buf` has room for to the front
    /// of `buf`, moves past them, and returns their number: 0 at the end of
    /// the source or for an empty `buf`. The position before the call is
    /// the new checkpoint.
    pub fn read(&mut self, buf: &mut [u8]) -> (count: usize)
        ensures
            final(self)@ == old(self)@.read(old(buf)@.len()),
            final(self)@.wf(),
            count == old(self)@.taken(old(buf)@.len()).len(),
            count == spec_min(old(self)@.available(), old(buf)@.len()),
            final(buf)@ == overlay(old(buf)@, 0, old(self)@.taken(old(buf)@.len())),
    {
        proof {
            use_type_invariant(&*self);
        }
        let source = self.buffer.as_bytes();
        let available = source.len() - self.position;
        let count = if available <= buf.len() {
            available
        } else {
            buf.len()
        };
        let ahead = vstd::slice::slice_subrange(source, self.position, self.position + count);
        overwrite(buf, 0, ahead);
        self.rewind_position = self.position;
        self.position = self.position + count;
        count
    }

    /// All bytes of the source, read or not.
    pub fn as_ref(&self) -> (bytes: &[u8])
        ensures
            bytes@ == self@.source,
    {
        self.buffer.as_bytes()
    }
}

/// Why a write was refused.
#[derive(Clone, Copy, Debug, PartialEq, Eq, Structural)]
pub enum WriteError {
    /// The bytes do not fit into what is left of a fixed region. Nothing
    /// was written.
    Overflow {
        /// The number of bytes that were to be written.
        attempted: usize,
        /// The number of bytes between the position and the region's end.
        available: usize,
    },
}

/// The region that a write buffer fills.
pub enum StreamWriteEnum<'a> {
    /// A byte vector of the buffer's own, which grows as needed.
    Growable(Vec<u8>),
    /// A byte vector lent by the caller, which grows as needed.
    GrowableRef(&'a mut Vec<u8>),
    /// A region of fixed length lent by the caller.
    Sized(&'a mut [u8]),
}

impl<'a> StreamWriteEnum<'a> {
    /// The bytes that the region holds now.
    pub open spec fn bytes(&self) -> Seq<u8> {
        match self {
            StreamWriteEnum::Growable(v) => v@,
            StreamWriteEnum::GrowableRef(v) => v@,
            StreamWriteEnum::Sized(s) => s@,
        }
    }

    /// Whether the region grows when written past its end.
    pub open spec fn growable(&self) -> bool {
        !(self is Sized)
    }

    /// The number of bytes that the region holds now.
    fn len(&self) -> (len: usize)
        ensures
            len == self.bytes().len(),
    {
        match self {
            StreamWriteEnum::Growable(v) => v.len(),
            StreamWriteEnum::GrowableRef(v) => v.len(),
            StreamWriteEnum::Sized(s) => s.len(),
        }
    }

    /// Writes `buf` into the region from `position` on. A growable region
    /// takes everything, growing where `buf` reaches past its end; a fixed
    /// region refuses what does not fit and stays as it is.
    fn write(&mut self, position: usize, buf: &[u8]) -> (count: Result<usize, WriteError>)
        requires
            position <= old(self).bytes().len(),
        ensures
            match (*old(self), *final(self)) {
                (StreamWriteEnum::Growable(_), StreamWriteEnum::Growable(_)) => true,
                (StreamWriteEnum::GrowableRef(a), StreamWriteEnum::GrowableRef(b)) => *final(a)
                    == *final(b),
                (StreamWriteEnum::Sized(a), StreamWriteEnum::Sized(b)) => final(a)@ == final(b)@,
                _ => false,
            },
            match count {
                Ok(n) => {
                    &&& old(self).growable() || buf@.len() <= old(self).bytes().len() - position
                    &&& n == buf@.len()
                    &&& position + n <= usize::MAX
                    &&& final(self).bytes() == overlay(old(self).bytes(), position as int, buf@)
                },
                Err(e) => {
                    &&& !old(self).growable()
                    &&& buf@.len() > old(self).bytes().len() - position
                    &&& final(self).bytes() == old(self).bytes()
                    &&& e == (WriteError::Overflow {
                        attempted: buf.len(),
                        available: (old(self).bytes().len() - position) as usize,
                    })
                },
            },
    {
        match self {
            StreamWriteEnum::Growable(v) => {
                write_growable(v, position, buf);
                Ok(buf.len())
            },
            StreamWriteEnum::GrowableRef(v) => {
                write_growable(v, position, buf);
                Ok(buf.len())
            },
            StreamWriteEnum::Sized(s) => {
                let available = s.len() - position;
                if buf.len() > available {
                    Err(WriteError::Overflow { attempted: buf.len(), available })
                } else {
                    overwrite(s, position, buf);
                    Ok(buf.len())
                }
            },
        }
    }

    /// Nothing is held back between writes, so there is nothing to do.
    fn flush(&mut self)
        ensures
            *final(self) == *old(self),
    {
    }

    /// The whole region.
    fn as_ref(&self) -> (bytes: &[u8])
        ensures
            bytes@ == self.bytes(),
    {
        match self {
            StreamWriteEnum::Growable(v) => v.as_slice(),
            StreamWriteEnum::GrowableRef(v) => v.as_slice(),
            StreamWriteEnum::Sized(s) => s,
        }
    }
}

/// Writes `buf` into `target` from `position` on: over the bytes that are
/// there, and past the end as far as `buf` reaches.
fn write_growable(target: &mut Vec<u8>, position: usize, buf: &[u8])
    requires
        position <= old(target)@.len(),
    ensures
        final(target)@ == overlay(old(target)@, position as int, buf@),
        position + buf@.len() <= usize::MAX,
{
    let mut k: usize = 0;
    while k < buf.len()
        invariant
            k <= buf.len(),
            position <= old(target)@.len(),
            target@.len() >= old(target)@.len(),
            target@.len() >= position + k,
            target@.len() == old(target)@.len() || target@.len() == position + k,
            forall|i: int|
                0 <= i < target@.len() ==> target@[i] == if position <= i < position + k {
                    buf@[i - position]
                } else {
                    old(target)@[i]
                },
        decreases buf.len() - k,
    {
        if k < target.len() - position {
            target[position + k] = buf[k];
        } else {
            target.push(buf[k]);
        }
        k = k + 1;
    }
    assert(target@ =~= overlay(old(target)@, position as int, buf@));
    assert(target.len() >= position + buf@.len());
}

/// A write buffer, as contracts see it.
pub struct WriteState {
    /// All bytes of the region, written or not.
    pub backing: Seq<u8>,
    /// Whether the region grows when written past its end.
    pub growable: bool,
    /// Where the next write begins.
    pub position: nat,
    /// The greatest position that was ever reached.
    pub high_water: nat,
    /// The caller's note of an expected length.
    pub size_hint: Option<usize>,
}

impl WriteState {
    /// The position is not past the high-water mark, nor the mark past the
    /// end of the region.
    pub open spec fn wf(self) -> bool {
        self.position <= self.high_water <= self.backing.len()
    }

    /// A write buffer over `backing` that has written nothing yet.
    pub open spec fn start(backing: Seq<u8>, growable: bool) -> WriteState {
        WriteState { backing, growable, position: 0, high_water: 0, size_hint: None }
    }

    /// What the buffer shows as written: the bytes below the high-water
    /// mark.
    pub open spec fn written(self) -> Seq<u8> {
        self.backing.subrange(0, self.high_water as int)
    }

    /// The number of bytes between the position and the region's end.
    pub open spec fn room(self) -> nat {
        (self.backing.len() - self.position) as nat
    }

    /// Whether a write of `src` succeeds: always into a growable region,
    /// into a fixed one if `src` fits into the room that is left.
    pub open spec fn accepts(self, src: Seq<u8>) -> bool {
        self.growable || src.len() <= self.room()
    }

    /// The state after a successful write of `src`.
    pub open spec fn write(self, src: Seq<u8>) -> WriteState {
        WriteState {
            backing: overlay(self.backing, self.position as int, src),
            position: self.position + src.len(),
            high_water: spec_max(self.high_water, self.position + src.len()),
            ..self
        }
    }

    /// The state after the cursor was set to `position`, or to the end of
    /// the region if `position` lies past it. The high-water mark follows
    /// a cursor that is set beyond it.
    pub open spec fn set_position(self, position: nat) -> WriteState {
        WriteState {
            position: spec_min(position, self.backing.len()),
            high_water: spec_max(self.high_water, spec_min(position, self.backing.len())),
            ..self
        }
    }

    /// The state with the given size hint.
    pub open spec fn with_size_hint(self, size_hint: Option<usize>) -> WriteState {
        WriteState { size_hint, ..self }
    }
}

/// A stream writer that fills a byte region piece by piece.
pub struct StreamWriteBuffer<'a> {
    buffer_enum: StreamWriteEnum<'a>,
    position: usize,
    high_water: usize,
    size_hint: Option<usize>,
}

impl<'a> View for StreamWriteBuffer<'a> {
    type V = WriteState;

    closed spec fn view(&self) -> WriteState {
        WriteState {
            backing: self.buffer_enum.bytes(),
            growable: self.buffer_enum.growable(),
            position: self.position as nat,
            high_water: self.high_water as nat,
            size_hint: self.size_hint,
        }
    }
}

/// The bytes of a finished write buffer, as a read buffer's source.
pub enum WrittenBytes<'a> {
    /// The writer's own vector, cut to what was written.
    Owned(Vec<u8>),
    /// What was written into a region that the caller lent.
    Borrowed(&'a [u8]),
}

impl<'a> ByteSource for WrittenBytes<'a> {
    open spec fn bytes(&self) -> Seq<u8> {
        match self {
            WrittenBytes::Owned(v) => v@,
            WrittenBytes::Borrowed(s) => s@,
        }
    }

    fn as_bytes(&self) -> (bytes: &[u8]) {
        match self {
            WrittenBytes::Owned(v) => v.as_slice(),
            WrittenBytes::Borrowed(s) => s,
        }
    }
}

impl<'a> StreamWriteBuffer<'a> {
    /// The region that the buffer fills. For a lent region this is the
    /// loan itself: what the lender finds in it when the loan ends is the
    /// final value of the reference held here.
    pub closed spec fn backend(&self) -> StreamWriteEnum<'a> {
        self.buffer_enum
    }

    /// A writer over a vector of its own, which starts with `size` zero
    /// bytes of room, or with none.
    pub fn new_growable(size: Option<usize>) -> (writer: Self)
        ensures
            writer@ == WriteState::start(
                Seq::new(
                    match size {
                        Some(n) => n as nat,
                        None => 0,
                    },
                    |i: int| 0u8,
                ),
                true,
            ),
            writer@.wf(),
            writer.backend() is Growable,
    {
        let buffer_enum = match size {
            Some(sz) => StreamWriteEnum::Growable(vec![0u8; sz]),
            None => StreamWriteEnum::Growable(Vec::new()),
        };
        let writer = StreamWriteBuffer { buffer_enum, position: 0, high_water: 0, size_hint: None };
        assert(writer@.backing =~= Seq::new(
            match size {
                Some(n) => n as nat,
                None => 0,
            },
            |i: int| 0u8,
        ));
        writer
    }

    /// A writer over a vector that the caller lends. It starts at index 0
    /// and writes over what the vector holds.
    pub fn new_growable_ref(vec_ref: &'a mut Vec<u8>) -> (writer: Self)
        ensures
            writer@ == WriteState::start(old(vec_ref)@, true),
            writer@.wf(),
            writer.backend() matches StreamWriteEnum::GrowableRef(lent) && *final(lent)
                == *final(vec_ref),
    {
        StreamWriteBuffer {
            buffer_enum: StreamWriteEnum::GrowableRef(vec_ref),
            position: 0,
            high_water: 0,
            size_hint: None,
        }
    }

    /// A writer over a region of fixed length that the caller lends.
    pub fn new_sized(buf: &'a mut [u8]) -> (writer: Self)
        ensures
            writer@ == WriteState::start(old(buf)@, false),
            writer@.wf(),
            writer.backend() matches StreamWriteEnum::Sized(lent) && final(lent)@ == final(buf)@,
    {
        StreamWriteBuffer {
            buffer_enum: StreamWriteEnum::Sized(buf),
            position: 0,
            high_water: 0,
            size_hint: None,
        }
    }

    /// Notes an expected length. The writer does not act on it.
    pub fn set_size_hint(&mut self, size_hint: usize)
        ensures
            final(self)@ == old(self)@.with_size_hint(Some(size_hint)),
            final(self).backend() == old(self).backend(),
    {
        self.size_hint = Some(size_hint);
    }

    /// Whether a size hint is noted.
    pub fn has_size_hint(&self) -> (present: bool)
        ensures
            present == self@.size_hint is Some,
    {
        self.size_hint.is_some()
    }

    /// Hands out the size hint and forgets it.
    pub fn take_size_hint(&mut self) -> (size_hint: Option<usize>)
        ensures
            size_hint == old(self)@.size_hint,
            final(self)@ == old(self)@.with_size_hint(None),
            final(self).backend() == old(self).backend(),
    {
        let size_hint = self.size_hint;
        self.size_hint = None;
        size_hint
    }

    /// The size hint, which stays noted.
    pub fn peek_size_hint(&self) -> (size_hint: Option<usize>)
        ensures
            size_hint == self@.size_hint,
    {
        self.size_hint
    }

    /// Sets the cursor, so that the next write begins at `position`: back
    /// into what was written, to write over it in place, or ahead into the
    /// room of the region, which then counts as written up to there. A
    /// position past the end of the region is taken as its end.
    pub fn set_position(&mut self, position: u64)
        requires
            old(self)@.wf(),
        ensures
            final(self)@ == old(self)@.set_position(position as nat),
            final(self)@.wf(),
            final(self).backend() == old(self).backend(),
    {
        let len = self.buffer_enum.len();
        let target = if position > len as u64 {
            len
        } else {
            position as usize
        };
        self.position = target;
        if target > self.high_water {
            self.high_water = target;
        }
    }

    /// Writes `buf` at the cursor and moves the cursor past it. A growable
    /// writer takes everything and returns the number of bytes. A writer
    /// over a fixed region does so if `buf` fits into the room between the
    /// cursor and the region's end; if not, it writes nothing, stays as it
    /// is, and reports the number of bytes asked for and the room it has.
    pub fn write(&mut self, buf: &[u8]) -> (count: Result<usize, WriteError>)
        requires
            old(self)@.wf(),
        ensures
            final(self)@.wf(),
            match (old(self).backend(), final(self).backend()) {
                (StreamWriteEnum::Growable(_), StreamWriteEnum::Growable(_)) => true,
                (StreamWriteEnum::GrowableRef(a), StreamWriteEnum::GrowableRef(b)) => *final(a)
                    == *final(b),
                (StreamWriteEnum::Sized(a), StreamWriteEnum::Sized(b)) => final(a)@ == final(b)@,
                _ => false,
            },
            match count {
                Ok(n) => {
                    &&& old(self)@.accepts(buf@)
                    &&& n == buf@.len()
                    &&& final(self)@ == old(self)@.write(buf@)
                },
                Err(e) => {
                    &&& !old(self)@.accepts(buf@)
                    &&& final(self)@ == old(self)@
                    &&& e == (WriteError::Overflow {
                        attempted: buf@.len() as usize,
                        available: old(self)@.room() as usize,
                    })
                },
            },
    {
        match self.buffer_enum.write(self.position, buf) {
            Err(e) => Err(e),
            Ok(n) => {
                self.position = self.position + n;
                if self.position > self.high_water {
                    self.high_water = self.position;
                }
                Ok(n)
            },
        }
    }

    /// Nothing is held back between writes, so there is nothing to do.
    pub fn flush(&mut self)
        ensures
            final(self)@ == old(self)@,
            final(self).backend() == old(self).backend(),
    {
        self.buffer_enum.flush();
    }

    /// What was written: the bytes below the high-water mark, however
    /// large the region is.
    pub fn as_written(&self) -> (bytes: &[u8])
        requires
            self@.wf(),
        ensures
            bytes@ == self@.written(),
    {
        vstd::slice::slice_subrange(self.buffer_enum.as_ref(), 0, self.high_water)
    }

    /// Where the next write begins.
    pub fn position(&self) -> (position: u64)
        ensures
            position == self@.position,
    {
        self.position as u64
    }

    /// Turns the writer into a reader of what was written, starting at its
    /// first byte. The bytes are not copied: the writer's own vector is cut
    /// to the high-water mark and handed over, and a lent region is read
    /// where it lies and is left as it is.
    pub fn into_read_buffer(self) -> (reader: StreamReadBuffer<WrittenBytes<'a>>)
        requires
            self@.wf(),
        ensures
            reader@ == ReadState::start(self@.written()),
            match self.backend() {
                StreamWriteEnum::Growable(_) => true,
                StreamWriteEnum::GrowableRef(lent) => final(lent)@ == self@.backing,
                StreamWriteEnum::Sized(lent) => final(lent)@ == self@.backing,
            },
    {
        let high_water = self.high_water;
        let source = match self.buffer_enum {
            StreamWriteEnum::Growable(v) => {
                let mut v = v;
                v.truncate(high_water);
                WrittenBytes::Owned(v)
            },
            StreamWriteEnum::GrowableRef(v) => {
                let whole: &'a Vec<u8> = &*v;
                WrittenBytes::Borrowed(vstd::slice::slice_subrange(whole.as_slice(), 0, high_water))
            },
            StreamWriteEnum::Sized(s) => {
                let whole: &'a [u8] = &*s;
                WrittenBytes::Borrowed(vstd::slice::slice_subrange(whole, 0, high_water))
            },
        };
        StreamReadBuffer::new(source)
    }

    /// When the writer is done with, a lent region holds what the writer
    /// holds as its region.
    pub proof fn lemma_loan_settles(self)
        requires
            has_resolved(self),
        ensures
            match self.backend() {
                StreamWriteEnum::Growable(_) => true,
                StreamWriteEnum::GrowableRef(lent) => final(lent)@ == self@.backing,
                StreamWriteEnum::Sized(lent) => final(lent)@ == self@.backing,
            },
    {
    }
}

/// Every step of a read buffer keeps it well formed.
pub proof fn lemma_read_steps_keep_order(state: ReadState, room: nat, size_hint: Option<usize>)
    requires
        state.wf(),
    ensures
        state.read(room).wf(),
        state.rewind().wf(),
        state.set_at_end().wf(),
        state.with_size_hint(size_hint).wf(),
{
}

/// A read passes all of the source exactly when its destination has room
/// for all that is left.
pub proof fn lemma_read_reaches_end(state: ReadState, room: nat)
    requires
        state.wf(),
    ensures
        state.read(room).at_end() <==> room >= state.available(),
        state.read(room).available() == state.available() - spec_min(state.available(), room),
{
}

/// Stepping back twice in a row is stepping back once.
pub proof fn lemma_rewind_twice(state: ReadState)
    ensures
        state.rewind().rewind() == state.rewind(),
{
}

/// After a read and a step back the buffer stands where it stood before
/// the read, so the next read takes the same bytes again.
pub proof fn lemma_rewind_undoes_read(state: ReadState, room: nat, again: nat)
    requires
        state.wf(),
    ensures
        state.read(room).rewind().position == state.position,
        state.read(room).rewind().source == state.source,
        state.read(room).rewind().taken(again) == state.taken(again),
{
}

/// A size hint is handed out once: after it was taken, none is left to
/// peek at or to take, and taking again changes nothing.
pub proof fn lemma_size_hint_taken_once(state: ReadState)
    ensures
        state.with_size_hint(None).size_hint is None,
        state.with_size_hint(None).with_size_hint(None) == state.with_size_hint(None),
{
}

/// Every step of a write buffer keeps it well formed, and none lowers the
/// high-water mark.
pub proof fn lemma_write_steps_keep_order(
    state: WriteState,
    src: Seq<u8>,
    position: nat,
    size_hint: Option<usize>,
)
    requires
        state.wf(),
    ensures
        state.accepts(src) ==> state.write(src).wf(),
        state.write(src).high_water >= state.high_water,
        state.set_position(position).wf(),
        state.set_position(position).high_water >= state.high_water,
        state.with_size_hint(size_hint).wf(),
{
}

/// A write at the high-water mark appends: what shows as written is what
/// showed before, followed by the bytes of the write, and the cursor is at
/// the high-water mark again.
pub proof fn lemma_write_appends(state: WriteState, src: Seq<u8>)
    requires
        state.wf(),
        state.position == state.high_water,
        state.accepts(src),
    ensures
        state.write(src).written() == state.written() + src,
        state.write(src).position == state.write(src).high_water,
{
    assert(state.write(src).written() =~= state.written() + src);
}

/// A write into what was written already changes the bytes it covers and
/// nothing else: the high-water mark and the length of what shows as
/// written stay.
pub proof fn lemma_write_patches(state: WriteState, position: nat, src: Seq<u8>)
    requires
        state.wf(),
        position + src.len() <= state.high_water,
    ensures
        state.set_position(position).accepts(src),
        state.set_position(position).write(src).high_water == state.high_water,
        state.set_position(position).write(src).written() == overlay(
            state.written(),
            position as int,
            src,
        ),
{
    assert(state.set_position(position).write(src).written() =~= overlay(
        state.written(),
        position as int,
        src,
    ));
}

/// A size hint of a write buffer is handed out once, as a read buffer's.
pub proof fn lemma_write_size_hint_taken_once(state: WriteState)
    ensures
        state.with_size_hint(None).size_hint is None,
        state.with_size_hint(None).with_size_hint(None) == state.with_size_hint(None),
{
}

} // verus!
