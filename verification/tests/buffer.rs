//! Segmented payloads and buffer leases.

use std::sync::Arc;

use bytes::Bytes;
use hyperlight::virtq::{AllocError, BufferLease, Segments, SlotLayout, SlotPool};

/// How far into a payload its segment list starts, where the list lies inside it.
fn inline_offset(segments: &Segments) -> Option<usize> {
    let list = segments.as_slice().as_ptr() as usize;
    let start = std::ptr::from_ref(segments) as usize;
    let offset = list.checked_sub(start)?;
    (offset < std::mem::size_of_val(segments)).then_some(offset)
}

#[test]
fn a_lease_is_released_once() {
    let mut pool = SlotPool::new(SlotLayout::new(0, 4, 1).unwrap()).unwrap();
    let lease = BufferLease::new(pool.allocate(4).unwrap());
    let again = BufferLease::new(lease.allocation());
    lease.release(&mut pool).unwrap();
    assert!(matches!(
        again.release(&mut pool),
        Err(AllocError::InvalidFree(0, 0))
    ));
}

#[test]
fn a_cursor_hands_out_no_more_than_it_has() {
    let segments = Segments::new(vec![Bytes::from_static(b"ab"), Bytes::from_static(b"c")]);
    let mut cursor = segments.as_buf();
    assert_eq!(cursor.try_copy_to_vec(4), None);
    assert_eq!(cursor.remaining(), 3);
    assert_eq!(cursor.try_copy_to_vec(3).as_deref(), Some(&b"abc"[..]));
    assert_eq!(segments.to_vec(), b"abc");
}

#[test]
fn lease_returns_slot_on_drop() {
    let layout = SlotLayout::new(0, 4, 1).unwrap();
    let mut pool = SlotPool::new(layout).unwrap();
    let allocation = pool.allocate(4).unwrap();
    let lease = BufferLease::new(allocation);

    assert_eq!(lease.allocation().addr, allocation.addr);
    assert_eq!(lease.allocation().len, 4);
    assert_eq!(pool.num_free(), 0);

    lease.release(&mut pool).unwrap();
    assert_eq!(pool.num_free(), 1);

    let reused = pool.allocate(4).unwrap();
    assert_eq!(reused.addr, allocation.addr);
    pool.dealloc(reused.addr).unwrap();
}

#[test]
fn segments_cursor_advances_across_segments() {
    let segments = Segments::new(vec![
        Bytes::from_static(b"abc"),
        Bytes::from_static(b"def"),
        Bytes::from_static(b"ghi"),
    ]);
    let mut cursor = segments.as_buf();

    assert_eq!(cursor.remaining(), 9);
    assert_eq!(cursor.chunk(), b"abc");

    cursor.advance(2);
    assert_eq!(cursor.remaining(), 7);
    assert_eq!(cursor.chunk(), b"c");

    cursor.advance(1);
    assert_eq!(cursor.chunk(), b"def");

    cursor.advance(4);
    assert_eq!(cursor.chunk(), b"hi");

    cursor.advance(2);
    assert_eq!(cursor.remaining(), 0);
    assert_eq!(cursor.chunk(), b"");
}

#[test]
fn segments_cursor_skips_empty_segments() {
    let segments = Segments::new(vec![
        Bytes::new(),
        Bytes::from_static(b"ab"),
        Bytes::new(),
        Bytes::from_static(b"cd"),
        Bytes::new(),
    ]);
    let mut cursor = segments.as_buf();

    assert_eq!(cursor.remaining(), 4);
    assert_eq!(cursor.chunk(), b"ab");

    cursor.advance(2);
    assert_eq!(cursor.remaining(), 2);
    assert_eq!(cursor.chunk(), b"cd");

    cursor.advance(2);
    assert_eq!(cursor.remaining(), 0);
    assert_eq!(cursor.chunk(), b"");
}

#[test]
fn segments_cursor_reads_split_header_without_collecting_all_segments() {
    let segments = Segments::new(vec![
        Bytes::from_static(&[0x01, 0x02, 0x03]),
        Bytes::from_static(&[0x04, 0x05]),
        Bytes::from_static(&[0x06, 0x07, 0x08, 0xff]),
    ]);
    let mut cursor = segments.as_buf();
    let header = cursor.try_copy_to_vec(8).unwrap();

    assert_eq!(header, [0x01, 0x02, 0x03, 0x04, 0x05, 0x06, 0x07, 0x08]);
    assert_eq!(cursor.remaining(), 1);
    assert_eq!(cursor.chunk(), &[0xff]);
}

#[test]
fn segments_cursor_copy_to_bytes_collects_only_requested_prefix() {
    let segments = Segments::new(vec![
        Bytes::from_static(b"hello"),
        Bytes::from_static(b" "),
        Bytes::from_static(b"world"),
    ]);
    let mut cursor = segments.as_buf();

    let prefix = cursor.copy_to_bytes(6);

    assert_eq!(prefix.as_ref(), b"hello ");
    assert_eq!(cursor.remaining(), 5);
    assert_eq!(cursor.chunk(), b"world");
}

#[test]
fn segments_split_to_shares_boundary_segment() {
    let boundary = Bytes::from(vec![b'd', b'e', b'f']);
    let boundary_ptr = boundary.as_ptr();
    let mut segments = Segments::new(vec![
        Bytes::from_static(b"abc"),
        boundary,
        Bytes::from_static(b"ghi"),
    ]);

    let prefix = segments.split_to(5).unwrap();

    assert_eq!(prefix.segment_count(), 2);
    assert_eq!(prefix.to_bytes().as_ref(), b"abcde");
    assert_eq!(prefix.as_slice()[1].as_ptr(), boundary_ptr);
    assert_eq!(segments.segment_count(), 2);
    assert_eq!(segments.to_bytes().as_ref(), b"fghi");
    assert_eq!(
        segments.as_slice()[0].as_ptr(),
        boundary_ptr.wrapping_add(2)
    );

    assert!(segments.split_to(5).is_none());
    assert_eq!(segments.to_bytes().as_ref(), b"fghi");
}

#[test]
fn segments_split_to_preserves_empty_segments() {
    let mut segments = Segments::new(vec![
        Bytes::new(),
        Bytes::from_static(b"ab"),
        Bytes::new(),
        Bytes::from_static(b"cd"),
        Bytes::new(),
    ]);
    let original = segments.as_slice().to_vec();

    assert!(segments.split_to(5).is_none());
    assert_eq!(segments.as_slice(), original);
    assert_eq!(segments.split_to(0).unwrap().segment_count(), 0);
    assert_eq!(segments.as_slice(), original);

    let first = segments.split_to(2).unwrap();
    assert_eq!(first.as_slice(), &[Bytes::new(), Bytes::from_static(b"ab")]);
    assert_eq!(segments.segment_count(), 3);

    let second = segments.split_to(2).unwrap();
    assert_eq!(
        second.as_slice(),
        &[Bytes::new(), Bytes::from_static(b"cd")]
    );
    assert!(segments.is_empty());
    assert_eq!(segments.segment_count(), 1);
    assert_eq!(segments.split_to(0).unwrap().segment_count(), 0);
    assert!(segments.split_to(1).is_none());
    assert_eq!(segments.as_slice(), &[Bytes::new()]);
}

#[test]
fn segments_split_to_reuses_full_segment_list() {
    let mut segments = Segments::new((0..8).map(|byte| Bytes::from(vec![byte])).collect());
    let storage = segments.as_slice().as_ptr();

    let prefix = segments.split_to(8).unwrap();

    assert_eq!(prefix.as_slice().as_ptr(), storage);
    assert_eq!(prefix.segment_count(), 8);
    assert_eq!(prefix.into_bytes().as_ref(), &[0, 1, 2, 3, 4, 5, 6, 7]);
    assert!(segments.is_empty());
    assert_eq!(segments.segment_count(), 0);
}

#[test]
fn segments_split_to_keeps_small_suffix_inline() {
    let mut segments = Segments::new((0..8192).map(|_| Bytes::from_static(b"x")).collect());
    drop(segments.split_to(8191).unwrap());

    let suffix = segments.split_to(1).unwrap();

    assert_eq!(inline_offset(&suffix), inline_offset(&Segments::empty()));
    assert_eq!(suffix.into_bytes().as_ref(), b"x");
    assert!(segments.is_empty());
    assert_eq!(segments.segment_count(), 0);
}

#[test]
fn segments_split_to_keeps_large_remainder_in_place() {
    let mut segments = Segments::new((0..8192).map(|_| Bytes::from_static(b"x")).collect());
    let storage = segments.as_slice().as_ptr();

    let prefix = segments.split_to(4096).unwrap();

    assert_eq!(prefix.segment_count(), 4096);
    assert!(prefix.as_slice().iter().all(|segment| segment.as_ref() == b"x"));
    assert_eq!(segments.segment_count(), 4096);
    assert_eq!(segments.as_slice().as_ptr(), storage.wrapping_add(4096));
}

#[test]
fn segments_split_to_repeatedly_consumes_fragments() {
    let mut segments = Segments::new((0..4096).map(|_| Bytes::from_static(b"ab")).collect());

    for _ in 0..4096 {
        assert_eq!(segments.split_to(1).unwrap().into_bytes().as_ref(), b"a");
        assert_eq!(segments.split_to(1).unwrap().into_bytes().as_ref(), b"b");
    }

    assert!(segments.is_empty());
    assert_eq!(segments.segment_count(), 0);
    assert!(segments.split_to(1).is_none());
}

#[test]
fn segments_split_to_releases_owners_independently() {
    let first: Arc<[u8]> = Arc::from(&b"abc"[..]);
    let boundary: Arc<[u8]> = Arc::from(&b"def"[..]);
    let last: Arc<[u8]> = Arc::from(&b"ghi"[..]);
    let first_owner = Arc::downgrade(&first);
    let boundary_owner = Arc::downgrade(&boundary);
    let last_owner = Arc::downgrade(&last);
    let mut segments = Segments::new(vec![
        Bytes::from_owner(first),
        Bytes::from_owner(boundary),
        Bytes::from_owner(last),
    ]);

    let prefix = segments.split_to(4).unwrap();
    assert_eq!(prefix.to_bytes().as_ref(), b"abcd");
    assert!(first_owner.upgrade().is_some());

    drop(prefix);

    assert!(first_owner.upgrade().is_none());
    assert!(boundary_owner.upgrade().is_some());
    assert!(last_owner.upgrade().is_some());
    assert_eq!(segments.to_bytes().as_ref(), b"efghi");

    drop(segments);

    assert!(boundary_owner.upgrade().is_none());
    assert!(last_owner.upgrade().is_none());
}

#[test]
fn segments_views_ignore_consumed_segments() {
    let mut segments = Segments::new(vec![
        Bytes::from_static(b"ab"),
        Bytes::from_static(b"cd"),
        Bytes::from_static(b"ef"),
    ]);
    drop(segments.split_to(3).unwrap());
    let expected = [Bytes::from_static(b"d"), Bytes::from_static(b"ef")];

    assert_eq!(segments.len(), 3);
    assert!(!segments.is_empty());
    assert_eq!(segments.segment_count(), 2);
    assert_eq!(segments.as_slice(), &expected);
    assert!(segments.as_slice().iter().eq(expected.iter()));
    assert_eq!(segments.to_bytes().as_ref(), b"def");

    let mut cursor = segments.as_buf();
    let bytes = cursor.try_copy_to_vec(3).unwrap();
    assert_eq!(&bytes, b"def");
    assert_eq!(cursor.remaining(), 0);

    let cloned = segments.clone_segments();
    assert_eq!(cloned.segment_count(), 2);
    assert_eq!(cloned.into_bytes().as_ref(), b"def");
    assert_eq!(segments.into_chunks(), expected);
}

#[test]
fn segments_into_bytes_reuses_single_segment() {
    let segment = Bytes::from(vec![1, 2, 3, 4]);
    let ptr = segment.as_ptr();

    let collected = Segments::single(segment).into_bytes();

    assert_eq!(collected.as_ptr(), ptr);
    assert_eq!(collected.as_ref(), &[1, 2, 3, 4]);
}

#[test]
fn segments_into_bytes_reuses_remaining_segment() {
    let segment = Bytes::from(vec![1, 2, 3, 4]);
    let ptr = segment.as_ptr();
    let mut segments = Segments::new(vec![Bytes::from_static(b"prefix"), segment]);
    drop(segments.split_to(6).unwrap());

    assert_eq!(segments.to_bytes().as_ptr(), ptr);

    let collected = segments.into_bytes();

    assert_eq!(collected.as_ptr(), ptr);
    assert_eq!(collected.as_ref(), &[1, 2, 3, 4]);
}

#[test]
fn segments_into_chunks_preserves_segment_storage() {
    let first = Bytes::from(vec![1, 2]);
    let second = Bytes::from(vec![3, 4]);
    let first_ptr = first.as_ptr();
    let second_ptr = second.as_ptr();

    let chunks = Segments::new(vec![first, second]).into_chunks();

    assert_eq!(chunks.len(), 2);
    assert_eq!(chunks[0].as_ptr(), first_ptr);
    assert_eq!(chunks[1].as_ptr(), second_ptr);
}

#[test]
fn segments_append_keeps_small_payloads_inline() {
    let chunks = [
        Bytes::from(vec![1]),
        Bytes::from(vec![2]),
        Bytes::from(vec![3]),
        Bytes::from(vec![4]),
    ];
    let ptrs = chunks.each_ref().map(|chunk| chunk.as_ptr());
    let [first, second, third, fourth] = chunks;
    let mut segments = Segments::new(vec![first, second]);

    // Four segments fit in the inline storage.
    segments.append(Segments::new(vec![third, fourth]));
    assert!(inline_offset(&segments).is_some());
    assert_eq!(segments.len(), 4);
    assert_eq!(segments.segment_count(), 4);
    assert_eq!(segments.to_bytes().as_ref(), &[1, 2, 3, 4]);
    for (segment, ptr) in segments.as_slice().iter().zip(ptrs) {
        assert_eq!(segment.as_ptr(), ptr);
    }
}

#[test]
fn segments_append_spills_in_order() {
    let mut segments = Segments::new((0..4).map(|byte| Bytes::from(vec![byte])).collect());
    let last = Bytes::from(vec![4]);
    let ptr = last.as_ptr();
    assert!(inline_offset(&segments).is_some());

    // The fifth segment requires heap storage for the segment list.
    segments.append(Segments::single(last));
    assert!(inline_offset(&segments).is_none());
    assert_eq!(segments.len(), 5);
    assert_eq!(segments.segment_count(), 5);
    assert_eq!(segments.to_bytes().as_ref(), &[0, 1, 2, 3, 4]);
    assert_eq!(segments.as_slice()[4].as_ptr(), ptr);
}

#[test]
fn segments_append_to_empty() {
    let bytes = Bytes::from(vec![1, 2, 3]);
    let ptr = bytes.as_ptr();
    let mut segments = Segments::empty();

    segments.append(Segments::single(bytes));

    assert_eq!(segments.len(), 3);
    assert_eq!(segments.segment_count(), 1);
    assert_eq!(segments.as_slice()[0].as_ptr(), ptr);
    assert_eq!(segments.as_slice()[0].as_ref(), &[1, 2, 3]);
}

#[test]
fn segments_append_empty_payload() {
    let bytes = Bytes::from(vec![1, 2, 3]);
    let ptr = bytes.as_ptr();
    let mut segments = Segments::single(bytes);

    segments.append(Segments::empty());

    assert_eq!(segments.len(), 3);
    assert_eq!(segments.segment_count(), 1);
    assert_eq!(segments.as_slice()[0].as_ptr(), ptr);
    assert_eq!(segments.as_slice()[0].as_ref(), &[1, 2, 3]);
}

#[test]
fn segments_append_compacts_consumed_slots() {
    let mut segments = Segments::new(vec![
        Bytes::from_static(b"a"),
        Bytes::from_static(b"b"),
        Bytes::from_static(b"c"),
        Bytes::from_static(b"d"),
    ]);

    let mut other = Segments::new(vec![
        Bytes::from_static(b"x"),
        Bytes::from_static(b"y"),
        Bytes::from_static(b"z"),
    ]);

    drop(segments.split_to(2).unwrap());
    drop(other.split_to(1).unwrap());

    segments.append(other);

    assert_eq!(inline_offset(&segments), inline_offset(&Segments::empty()));
    assert_eq!(segments.segment_count(), 4);
    assert_eq!(segments.to_bytes().as_ref(), b"cdyz");
}

#[test]
fn segments_append_preserves_owner_lifetime() {
    let storage: Arc<[u8]> = Arc::from(&b"data"[..]);
    let owner = Arc::downgrade(&storage);
    let mut segments = Segments::single(Bytes::from_static(b"header"));

    // The appended segment becomes the only owner of this storage.
    segments.append(Segments::single(Bytes::from_owner(storage)));
    assert_eq!(owner.strong_count(), 1);
    assert_eq!(segments.to_bytes().as_ref(), b"headerdata");

    drop(segments);
    assert!(owner.upgrade().is_none());
}
