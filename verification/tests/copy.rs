use buffering::copy::{ByteSource, StreamReadBuffer, StreamWriteBuffer, WriteError};
use byteorder::{BigEndian, LittleEndian, ReadBytesExt};
use std::io::Read;

/// A read buffer as a `std::io::Read`, for readers that are built on it.
struct IoReader<T: ByteSource>(StreamReadBuffer<T>);

impl<T: ByteSource> Read for IoReader<T> {
    fn read(&mut self, buf: &mut [u8]) -> std::io::Result<usize> {
        Ok(self.0.read(buf))
    }
}

#[test]
fn test_at_end_method() {
    let mut b = StreamReadBuffer::new(vec![1, 2, 3, 4, 5, 6, 7, 8, 9, 10]);
    let first_second_read = &mut [0u8; 4];
    assert_eq!(b.read(first_second_read), 4);
    assert_eq!(b.at_end(), false);
    assert_eq!(b.read(first_second_read), 4);
    assert_eq!(b.at_end(), false);
    let last_read = &mut [0u8; 2];
    assert_eq!(b.read(last_read), 2);
    assert_eq!(b.at_end(), true);
}

#[test]
fn test_rewind() {
    let mut b = IoReader(StreamReadBuffer::new(vec![1, 2, 3, 4, 5, 6, 7, 8, 9, 10]));
    let usixteen = b.read_u16::<BigEndian>().unwrap();
    assert_eq!(258, usixteen);
    b.0.rewind();
    let usixteen_try_again = b.read_u16::<LittleEndian>().unwrap();
    assert_eq!(513, usixteen_try_again);
}

#[test]
fn read_copies_what_is_ahead() {
    let mut b = StreamReadBuffer::new(vec![1u8, 2, 3, 4, 5]);
    let mut dst = [9u8; 3];
    assert_eq!(b.read(&mut dst), 3);
    assert_eq!(dst, [1, 2, 3]);
    // A short read fills the front of the destination only.
    assert_eq!(b.read(&mut dst), 2);
    assert_eq!(dst, [4, 5, 3]);
    assert!(b.at_end());
    // At the end a read takes nothing and is no error.
    assert_eq!(b.read(&mut dst), 0);
    assert_eq!(dst, [4, 5, 3]);
    assert_eq!(b.as_ref(), [1, 2, 3, 4, 5]);
}

#[test]
fn read_into_an_empty_destination_takes_nothing() {
    let mut b = StreamReadBuffer::new(vec![1u8, 2]);
    let mut first = [0u8; 1];
    assert_eq!(b.read(&mut first), 1);
    assert_eq!(b.read(&mut []), 0);
    // The empty read is the last read, so stepping back stays at 1.
    b.rewind();
    assert_eq!(b.read(&mut first), 1);
    assert_eq!(first, [2]);
}

#[test]
fn rewind_twice_is_rewind_once() {
    let mut b = StreamReadBuffer::new(vec![1u8, 2, 3, 4, 5, 6]);
    let mut dst = [0u8; 2];
    b.read(&mut dst);
    b.read(&mut dst);
    assert_eq!(dst, [3, 4]);
    b.rewind();
    b.rewind();
    assert_eq!(b.read(&mut dst), 2);
    assert_eq!(dst, [3, 4]);
}

#[test]
fn rewind_before_any_read_stays_at_the_start() {
    let mut b = StreamReadBuffer::new(vec![1u8, 2]);
    b.rewind();
    let mut dst = [0u8; 2];
    assert_eq!(b.read(&mut dst), 2);
    assert_eq!(dst, [1, 2]);
}

#[test]
fn set_at_end_gives_up_the_rest() {
    let mut b = StreamReadBuffer::new(vec![1u8, 2, 3, 4]);
    let mut dst = [0u8; 1];
    b.read(&mut dst);
    assert!(!b.at_end());
    b.set_at_end();
    assert!(b.at_end());
    assert_eq!(b.read(&mut dst), 0);
    assert_eq!(b.as_ref(), [1, 2, 3, 4]);
}

#[test]
fn empty_source_is_at_end() {
    let mut b = StreamReadBuffer::new(Vec::<u8>::new());
    assert!(b.at_end());
    let mut dst = [0u8; 4];
    assert_eq!(b.read(&mut dst), 0);
}

#[test]
fn read_buffer_over_slices_and_arrays() {
    let bytes = [1u8, 2, 3];
    let mut over_slice = StreamReadBuffer::new(&bytes[..]);
    let mut dst = [0u8; 2];
    assert_eq!(over_slice.read(&mut dst), 2);
    assert_eq!(dst, [1, 2]);
    let mut over_array = StreamReadBuffer::new([4u8, 5, 6]);
    assert_eq!(over_array.read(&mut dst), 2);
    assert_eq!(dst, [4, 5]);
    assert_eq!(over_array.as_ref(), [4, 5, 6]);
    assert_eq!(ByteSource::as_bytes(&vec![7u8, 8]), [7, 8]);
    let owner = vec![1u8, 2];
    let mut over_vec_ref = StreamReadBuffer::new(&owner);
    assert_eq!(over_vec_ref.read(&mut dst), 2);
    assert_eq!(dst, [1, 2]);
}

#[test]
fn read_buffer_over_text() {
    let mut over_str = StreamReadBuffer::new("hé");
    let mut dst = [0u8; 4];
    assert_eq!(over_str.read(&mut dst), 3);
    assert_eq!(dst, [b'h', 0xC3, 0xA9, 0]);
    assert!(over_str.at_end());
    let mut over_string = StreamReadBuffer::new(String::from("ab"));
    assert_eq!(over_string.read(&mut dst), 2);
    assert_eq!(&dst[..2], b"ab");
    assert_eq!(over_string.as_ref(), b"ab");
}

#[test]
fn read_size_hint_is_taken_once() {
    let mut b = StreamReadBuffer::new(vec![1u8, 2, 3]);
    assert!(!b.has_size_hint());
    assert_eq!(b.peek_size_hint(), None);
    assert_eq!(b.take_size_hint(), None);
    b.set_size_hint(12);
    assert!(b.has_size_hint());
    for _ in 0..5 {
        assert_eq!(b.peek_size_hint(), Some(12));
    }
    assert!(b.has_size_hint());
    assert_eq!(b.take_size_hint(), Some(12));
    assert_eq!(b.peek_size_hint(), None);
    assert_eq!(b.take_size_hint(), None);
    assert!(!b.has_size_hint());
    // The hint says nothing to the reader.
    b.set_size_hint(1);
    let mut dst = [0u8; 3];
    assert_eq!(b.read(&mut dst), 3);
    assert_eq!(b.peek_size_hint(), Some(1));
}

#[test]
fn write_size_hint_is_taken_once() {
    let mut w = StreamWriteBuffer::new_growable(None);
    assert!(!w.has_size_hint());
    assert_eq!(w.take_size_hint(), None);
    w.set_size_hint(7);
    w.set_size_hint(8);
    assert_eq!(w.peek_size_hint(), Some(8));
    assert_eq!(w.peek_size_hint(), Some(8));
    assert!(w.has_size_hint());
    assert_eq!(w.take_size_hint(), Some(8));
    assert_eq!(w.peek_size_hint(), None);
    assert_eq!(w.take_size_hint(), None);
    assert!(!w.has_size_hint());
}

#[test]
fn growable_takes_every_chunk() {
    for initial in [None, Some(0), Some(2), Some(5), Some(64)] {
        let mut w = StreamWriteBuffer::new_growable(initial);
        assert_eq!(w.as_written(), [0u8; 0]);
        assert_eq!(w.write(&[1, 2]), Ok(2));
        assert_eq!(w.write(&[3]), Ok(1));
        assert_eq!(w.write(&[4, 5]), Ok(2));
        assert_eq!(w.as_written(), [1, 2, 3, 4, 5]);
        assert_eq!(w.position(), 5);
        assert_eq!(w.write(&[]), Ok(0));
        assert_eq!(w.as_written(), [1, 2, 3, 4, 5]);
    }
}

#[test]
fn growable_ref_writes_into_the_lent_vector() {
    let mut lent = vec![9u8, 9, 9];
    {
        let mut w = StreamWriteBuffer::new_growable_ref(&mut lent);
        assert_eq!(w.as_written(), [0u8; 0]);
        assert_eq!(w.write(&[1, 2]), Ok(2));
        assert_eq!(w.as_written(), [1, 2]);
        assert_eq!(w.write(&[3, 4, 5]), Ok(3));
        assert_eq!(w.as_written(), [1, 2, 3, 4, 5]);
    }
    assert_eq!(lent, [1, 2, 3, 4, 5]);
    let mut longer = vec![9u8, 9, 9];
    {
        let mut w = StreamWriteBuffer::new_growable_ref(&mut longer);
        assert_eq!(w.write(&[1]), Ok(1));
        assert_eq!(w.as_written(), [1]);
    }
    assert_eq!(longer, [1, 9, 9]);
}

#[test]
fn sized_refuses_what_does_not_fit() {
    let mut region = [0u8; 4];
    {
        let mut w = StreamWriteBuffer::new_sized(&mut region);
        assert_eq!(w.write(&[1, 2, 3]), Ok(3));
        assert_eq!(w.as_written(), [1, 2, 3]);
        assert_eq!(w.write(&[4, 5]), Err(WriteError::Overflow { attempted: 2, available: 1 }));
        assert_eq!(w.as_written(), [1, 2, 3]);
        assert_eq!(w.position(), 3);
        assert_eq!(w.write(&[4]), Ok(1));
        assert_eq!(w.as_written(), [1, 2, 3, 4]);
        assert_eq!(w.write(&[5]), Err(WriteError::Overflow { attempted: 1, available: 0 }));
        assert_eq!(w.write(&[]), Ok(0));
        assert_eq!(w.as_written(), [1, 2, 3, 4]);
    }
    assert_eq!(region, [1, 2, 3, 4]);
}

#[test]
fn sized_overflow_leaves_the_region_as_it_is() {
    let mut region = [7u8; 3];
    {
        let mut w = StreamWriteBuffer::new_sized(&mut region);
        assert_eq!(
            w.write(&[1, 2, 3, 4]),
            Err(WriteError::Overflow { attempted: 4, available: 3 })
        );
        assert_eq!(w.as_written(), [0u8; 0]);
        assert_eq!(w.position(), 0);
    }
    assert_eq!(region, [7, 7, 7]);
    let mut empty: [u8; 0] = [];
    let mut w = StreamWriteBuffer::new_sized(&mut empty);
    assert_eq!(w.write(&[1]), Err(WriteError::Overflow { attempted: 1, available: 0 }));
}

#[test]
fn overflow_in_a_patch_keeps_what_was_written() {
    let mut region = [0u8; 4];
    let mut w = StreamWriteBuffer::new_sized(&mut region);
    assert_eq!(w.write(&[1, 2, 3, 4]), Ok(4));
    w.set_position(2);
    assert_eq!(w.write(&[8, 8, 8]), Err(WriteError::Overflow { attempted: 3, available: 2 }));
    assert_eq!(w.as_written(), [1, 2, 3, 4]);
    assert_eq!(w.position(), 2);
}

#[test]
fn set_position_patches_in_place() {
    let mut w = StreamWriteBuffer::new_growable(None);
    assert_eq!(w.write(&[0, 0, 10, 11, 12]), Ok(5));
    w.set_position(0);
    assert_eq!(w.as_written(), [0, 0, 10, 11, 12]);
    assert_eq!(w.write(&[0, 3]), Ok(2));
    assert_eq!(w.as_written(), [0, 3, 10, 11, 12]);
    assert_eq!(w.position(), 2);
    // A write that begins in what was written and ends beyond it grows it.
    w.set_position(4);
    assert_eq!(w.write(&[20, 21, 22]), Ok(3));
    assert_eq!(w.as_written(), [0, 3, 10, 11, 20, 21, 22]);
    assert_eq!(w.position(), 7);
}

#[test]
fn set_position_ahead_reserves_room() {
    // Room for a length prefix is left out, the payload written, and the
    // prefix filled in at the end.
    let mut w = StreamWriteBuffer::new_growable(Some(16));
    w.set_position(2);
    assert_eq!(w.as_written(), [0, 0]);
    assert_eq!(w.write(&[5, 6, 7]), Ok(3));
    w.set_position(0);
    assert_eq!(w.write(&[0, 3]), Ok(2));
    assert_eq!(w.as_written(), [0, 3, 5, 6, 7]);
}

#[test]
fn set_position_past_the_region_is_its_end() {
    let mut w = StreamWriteBuffer::new_growable(Some(3));
    w.set_position(u64::MAX);
    assert_eq!(w.position(), 3);
    assert_eq!(w.as_written(), [0, 0, 0]);
    assert_eq!(w.write(&[1]), Ok(1));
    assert_eq!(w.as_written(), [0, 0, 0, 1]);
    let mut region = [4u8, 5];
    let mut w = StreamWriteBuffer::new_sized(&mut region);
    w.set_position(9);
    assert_eq!(w.position(), 2);
    assert_eq!(w.as_written(), [4, 5]);
    assert_eq!(w.write(&[1]), Err(WriteError::Overflow { attempted: 1, available: 0 }));
    let mut w = StreamWriteBuffer::new_growable(None);
    w.set_position(4);
    assert_eq!(w.position(), 0);
}

#[test]
fn flush_changes_nothing() {
    let mut w = StreamWriteBuffer::new_growable(Some(4));
    assert_eq!(w.write(&[1, 2]), Ok(2));
    w.flush();
    assert_eq!(w.as_written(), [1, 2]);
    assert_eq!(w.position(), 2);
}

#[test]
fn written_bytes_are_read_back() {
    let mut w = StreamWriteBuffer::new_growable(Some(32));
    assert_eq!(w.write(&[1, 2, 3]), Ok(3));
    w.set_size_hint(3);
    let mut r = w.into_read_buffer();
    assert_eq!(r.as_ref(), [1, 2, 3]);
    assert_eq!(r.peek_size_hint(), None);
    let mut dst = [0u8; 8];
    assert_eq!(r.read(&mut dst), 3);
    assert_eq!(&dst[..3], [1, 2, 3]);
    assert!(r.at_end());
}

#[test]
fn lent_regions_are_read_where_they_lie() {
    let mut lent = vec![9u8; 4];
    {
        let mut w = StreamWriteBuffer::new_growable_ref(&mut lent);
        assert_eq!(w.write(&[1, 2]), Ok(2));
        let mut r = w.into_read_buffer();
        assert_eq!(r.as_ref(), [1, 2]);
        let mut dst = [0u8; 1];
        assert_eq!(r.read(&mut dst), 1);
        assert!(!r.at_end());
        assert_eq!(r.read(&mut dst), 1);
        assert!(r.at_end());
    }
    assert_eq!(lent, [1, 2, 9, 9]);
    let mut region = [9u8; 4];
    {
        let mut w = StreamWriteBuffer::new_sized(&mut region);
        assert_eq!(w.write(&[5, 6, 7]), Ok(3));
        w.set_position(1);
        let r = w.into_read_buffer();
        assert_eq!(r.as_ref(), [5, 6, 7]);
    }
    assert_eq!(region, [5, 6, 7, 9]);
}
