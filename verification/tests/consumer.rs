//! The device side of a queue.

use bytes::Bytes;
use hyperlight::virtq::desc::{DESC_AVAIL, DESC_INDIRECT, DESC_NEXT, DESC_WRITE};
use hyperlight::virtq::{
    Allocation, BufferChainBuilder, BufferMap, ChainBuilder, Descriptor, Layout, MemOps, Notifier,
    QueueStats, RecvChain, ReplyChain, RingError, RingProducer, SendChain, SlotLayout, SlotPool,
    UsedChain, VirtqConsumer, VirtqError, VirtqProducer,
};

const BASE_ADDR: u64 = 0x1_0000;

/// Memory that can refuse accesses.
struct TestMem {
    bytes: Vec<u8>,
    /// Payload range whose reads fail.
    unreadable: std::ops::Range<u64>,
    /// Writes left before one fails.
    writes_left: Option<usize>,
}

impl TestMem {
    fn new(len: usize) -> Self {
        Self {
            bytes: vec![0; len],
            unreadable: 0..0,
            writes_left: None,
        }
    }

    fn offset(&self, addr: u64, len: usize) -> Result<usize, ()> {
        let offset = addr.checked_sub(BASE_ADDR).ok_or(())? as usize;
        match offset.checked_add(len) {
            Some(end) if end <= self.bytes.len() => Ok(offset),
            _ => Err(()),
        }
    }

    fn count_write(&mut self) -> Result<(), ()> {
        match &mut self.writes_left {
            Some(0) => Err(()),
            Some(left) => {
                *left -= 1;
                Ok(())
            }
            None => Ok(()),
        }
    }
}

impl MemOps for TestMem {
    type Error = ();

    fn read(&self, addr: u64, dst: &mut [u8]) -> Result<(), ()> {
        let end = addr + dst.len() as u64;
        if addr < self.unreadable.end && self.unreadable.start < end {
            return Err(());
        }
        let offset = self.offset(addr, dst.len())?;
        dst.copy_from_slice(&self.bytes[offset..offset + dst.len()]);
        Ok(())
    }

    fn write(&mut self, addr: u64, src: &[u8]) -> Result<(), ()> {
        self.count_write()?;
        let offset = self.offset(addr, src.len())?;
        self.bytes[offset..offset + src.len()].copy_from_slice(src);
        Ok(())
    }

    fn load_acquire(&self, addr: u64) -> Result<u16, ()> {
        let mut word = [0; 2];
        self.read(addr, &mut word)?;
        Ok(u16::from_le_bytes(word))
    }

    fn store_release(&mut self, addr: u64, val: u16) -> Result<(), ()> {
        self.write(addr, &val.to_le_bytes())
    }
}

impl BufferMap for TestMem {
    fn map_buffer(&mut self, allocation: Allocation, written: usize) -> Result<Bytes, ()> {
        let mut bytes = vec![0; written];
        self.read(allocation.addr, &mut bytes)?;
        Ok(Bytes::from(bytes))
    }
}

#[derive(Default)]
struct TestNotifier {
    count: usize,
}

impl Notifier for TestNotifier {
    fn notify(&mut self, _stats: QueueStats) {
        self.count += 1;
    }
}

/// Both sides of a queue and their memory.
struct Queue {
    mem: TestMem,
    layout: Layout,
    producer: VirtqProducer<TestNotifier>,
    consumer: VirtqConsumer<TestNotifier>,
}

fn ring_layout(size: u16) -> Layout {
    Layout::from_base(BASE_ADDR, size).unwrap()
}

fn payload_base(size: u16) -> u64 {
    BASE_ADDR + Layout::query_size(size as usize) as u64 + 0x100
}

impl Queue {
    fn new(size: u16, slot_size: usize) -> Self {
        let layout = ring_layout(size);
        let slots = SlotLayout::new(payload_base(size), slot_size, size as usize).unwrap();
        Self {
            mem: TestMem::new(0x2_0000),
            layout,
            producer: VirtqProducer::new(
                layout,
                TestNotifier::default(),
                SlotPool::new(slots).unwrap(),
            ),
            consumer: VirtqConsumer::new(layout, TestNotifier::default()),
        }
    }

    fn build(&mut self, builder: ChainBuilder) -> SendChain {
        builder.build(&mut self.producer.pool).unwrap()
    }

    fn write_all(&mut self, chain: &mut SendChain, data: &[u8]) {
        chain.write_all(&mut self.mem, data).unwrap();
    }

    fn submit(&mut self, chain: SendChain) -> hyperlight::virtq::Token {
        self.producer.submit(&mut self.mem, chain).unwrap()
    }

    fn send(&mut self, builder: ChainBuilder, data: &[u8]) -> hyperlight::virtq::Token {
        let mut chain = self.build(builder);
        if !data.is_empty() {
            self.write_all(&mut chain, data);
        }
        self.submit(chain)
    }

    fn poll_data(&mut self) -> (RecvChain, ReplyChain) {
        self.consumer.poll(&mut self.mem, 1024).unwrap().unwrap()
    }

    fn complete(&mut self, recv: RecvChain, reply: ReplyChain) {
        self.consumer.complete(&mut self.mem, recv, reply).unwrap()
    }

    fn drain(&mut self) -> Vec<UsedChain> {
        let mut used = Vec::new();
        self.producer.drain(&mut self.mem, &mut used).unwrap();
        used
    }
}

fn make_queue() -> Queue {
    Queue::new(16, 256)
}

#[test]
fn test_write_only_recv_is_empty() {
    let mut queue = make_queue();
    let builder = queue.producer.chain().writable(16);
    queue.send(builder, b"");

    let (recv, reply) = queue.poll_data();
    assert!(recv.to_bytes(&queue.mem).unwrap().is_empty());
    assert!(matches!(reply, ReplyChain::Writable(_)));

    if let ReplyChain::Writable(mut wc) = reply {
        wc.write_all(&mut queue.mem, b"response").unwrap();
        queue.complete(recv, ReplyChain::Writable(wc));
    }
    queue.drain();
}

#[test]
fn test_read_only_ack_reply() {
    let mut queue = make_queue();
    let builder = queue.producer.chain().readable(16);
    queue.send(builder, b"hello");

    let (recv, reply) = queue.poll_data();
    assert_eq!(recv.to_bytes(&queue.mem).unwrap().as_ref(), b"hello");
    assert!(matches!(reply, ReplyChain::Ack(_)));

    queue.complete(recv, reply);
    queue.drain();
}

#[test]
fn consumer_test_readwrite_round_trip() {
    let mut queue = Queue::new(16, 64);
    let builder = queue.producer.chain().readable(32).writable(64);
    queue.send(builder, b"hello world");

    let (recv, reply) = queue.poll_data();
    assert_eq!(recv.to_bytes(&queue.mem).unwrap().as_ref(), b"hello world");

    if let ReplyChain::Writable(mut wc) = reply {
        assert_eq!(wc.capacity(), 64);
        assert_eq!(wc.written(), 0);
        assert_eq!(wc.remaining(), 64);
        wc.write_all(&mut queue.mem, b"response").unwrap();
        assert_eq!(wc.written(), 8);
        assert_eq!(wc.remaining(), 56);
        queue.complete(recv, ReplyChain::Writable(wc));
    } else {
        panic!("expected Writable reply for recv+reply chain");
    }
    queue.drain();
}

#[test]
fn test_recv_reads_across_descriptor_boundaries() {
    let mut queue = make_queue();
    let builder = queue.producer.chain().readable(4).readable(4);
    queue.send(builder, b"abcdefgh");

    let (mut recv, reply) = queue.poll_data();
    assert_eq!(recv.len(), 8);
    assert_eq!(recv.remaining(), 8);
    let mut first = [0u8; 2];
    recv.read_exact(&queue.mem, &mut first).unwrap();
    assert_eq!(&first, b"ab");
    assert_eq!(recv.consumed(), 2);
    assert_eq!(recv.remaining(), 6);

    let mut second = [0u8; 3];
    recv.read_exact(&queue.mem, &mut second).unwrap();
    assert_eq!(&second, b"cde");

    let mut too_long = [0u8; 4];
    assert!(matches!(
        recv.read_exact(&queue.mem, &mut too_long),
        Err(VirtqError::ReceiveTooShort {
            requested: 4,
            remaining: 3
        })
    ));

    let mut final_buf = [0u8; 4];
    assert_eq!(recv.read(&queue.mem, &mut final_buf).unwrap(), 3);
    assert_eq!(&final_buf[..3], b"fgh");
    assert_eq!(recv.read(&queue.mem, &mut final_buf).unwrap(), 0);
    assert_eq!(recv.to_bytes(&queue.mem).unwrap().as_ref(), b"abcdefgh");

    queue.complete(recv, reply);
    queue.drain();
}

#[test]
fn test_poll_defers_payload_reads() {
    let layout = ring_layout(16);
    let mut ring_mem = TestMem::new(0x1_0000);
    let mut payload_mem = TestMem::new(0x1_0000);
    let mut ring_producer = RingProducer::new(layout);
    let payload_addr = payload_base(16);
    payload_mem.write(payload_addr, b"data").unwrap();

    let chain = BufferChainBuilder::new()
        .readable(payload_addr, 4)
        .build()
        .unwrap();
    ring_producer
        .submit_available(&mut ring_mem, &chain)
        .unwrap();

    payload_mem.unreadable = payload_addr..payload_addr + 4;
    let mut consumer = VirtqConsumer::new(layout, TestNotifier::default());

    let (recv, reply) = consumer.poll(&mut ring_mem, 4).unwrap().unwrap();
    assert!(matches!(
        recv.to_bytes(&payload_mem),
        Err(VirtqError::MemoryReadError)
    ));
    consumer.complete(&mut ring_mem, recv, reply).unwrap();
}

#[test]
fn test_writable_partial_write() {
    let mut queue = Queue::new(16, 8);
    let builder = queue.producer.chain().writable(8);
    queue.send(builder, b"");

    let (recv, reply) = queue.poll_data();

    if let ReplyChain::Writable(mut wc) = reply {
        let n = wc.write(&mut queue.mem, b"hello world!").unwrap();
        assert_eq!(n, 8);
        assert_eq!(wc.remaining(), 0);
        queue.complete(recv, ReplyChain::Writable(wc));
    } else {
        panic!("expected Writable");
    }
    queue.drain();
}

#[test]
fn test_writable_write_all_too_large() {
    let mut queue = Queue::new(16, 4);
    let builder = queue.producer.chain().writable(4);
    queue.send(builder, b"");
    let (recv, reply) = queue.poll_data();

    if let ReplyChain::Writable(mut wc) = reply {
        let err = wc.write_all(&mut queue.mem, b"too long").err().unwrap();
        assert!(matches!(err, VirtqError::ReplyTooLarge));
        queue.complete(recv, ReplyChain::Writable(wc));
    } else {
        panic!("expected Writable");
    }

    queue.drain();
}

#[test]
fn test_poll_too_large_returns_payload_error() {
    let mut queue = make_queue();
    let builder = queue.producer.chain().readable(8).writable(16);
    queue.send(builder, b"too much");

    assert!(matches!(
        queue.consumer.poll(&mut queue.mem, 4),
        Err(VirtqError::PayloadTooLarge { recv: 8, limit: 4 })
    ));
    queue.drain();
}

#[test]
fn test_poll_too_large_returns_descriptor() {
    let mut queue = make_queue();
    let builder = queue.producer.chain().readable(8).writable(16);
    let token = queue.send(builder, b"too much");

    // Oversized payload is rejected, but the descriptor must be returned to
    // the driver so the ring slot is not leaked.
    assert!(matches!(
        queue.consumer.poll(&mut queue.mem, 4),
        Err(VirtqError::PayloadTooLarge { recv: 8, limit: 4 })
    ));

    // The producer can reclaim the rejected chain; the queue is not wedged.
    let used = queue.producer.poll(&mut queue.mem).unwrap().unwrap();
    assert_eq!(used.token(), token);

    // A subsequent normal exchange still round-trips end to end.
    let builder = queue.producer.chain().writable(16);
    queue.send(builder, b"");
    let (recv, reply) = queue.poll_data();
    queue.complete(recv, reply);
    assert!(queue.producer.poll(&mut queue.mem).unwrap().is_some());
}

fn write_desc(mem: &mut TestMem, layout: Layout, index: u16, desc: Descriptor) {
    let addr = layout.desc_addr(index).unwrap();
    mem.write(addr, &desc.addr.to_le_bytes()).unwrap();
    mem.write(addr + 8, &desc.len.to_le_bytes()).unwrap();
    mem.write(addr + 12, &desc.id.to_le_bytes()).unwrap();
    mem.write(addr + 14, &desc.flags.to_le_bytes()).unwrap();
}

#[test]
fn test_villain_indirect_descriptor_does_not_mark_high_level_inflight() {
    let mut queue = make_queue();
    let desc = Descriptor::new(0x1000, 16, 0, DESC_INDIRECT | DESC_AVAIL);
    write_desc(&mut queue.mem, queue.layout, 0, desc);

    assert!(matches!(
        queue.consumer.poll(&mut queue.mem, 1024),
        Err(VirtqError::RingError(RingError::BadChain))
    ));
    assert_eq!(queue.consumer.inner.num_inflight(), 0);
}

#[test]
fn test_villain_bad_chain_does_not_mark_high_level_inflight() {
    let mut queue = make_queue();
    let first = Descriptor::new(0x1000, 16, 0, DESC_NEXT | DESC_WRITE | DESC_AVAIL);
    write_desc(&mut queue.mem, queue.layout, 0, first);
    let second = Descriptor::new(0x2000, 16, 0, DESC_AVAIL);
    write_desc(&mut queue.mem, queue.layout, 1, second);

    assert!(matches!(
        queue.consumer.poll(&mut queue.mem, 1024),
        Err(VirtqError::RingError(RingError::BadChain))
    ));
    assert_eq!(queue.consumer.inner.num_inflight(), 0);
}

#[test]
fn test_writable_chain_writes_single_segment() {
    let mut queue = make_queue();
    let builder = queue.producer.chain().writable(16);
    queue.send(builder, b"");
    let (recv, reply) = queue.poll_data();

    let ReplyChain::Writable(mut wc) = reply else {
        panic!("expected Writable");
    };
    wc.write_all(&mut queue.mem, b"hello").unwrap();
    queue.complete(recv, ReplyChain::Writable(wc));

    let used = queue.producer.poll(&mut queue.mem).unwrap().unwrap();
    assert_eq!(used.to_bytes().unwrap().as_ref(), b"hello");
}

#[test]
fn test_writable_rewind() {
    let mut queue = Queue::new(16, 16);
    let builder = queue.producer.chain().writable(16);
    queue.send(builder, b"");

    let (recv, reply) = queue.poll_data();

    if let ReplyChain::Writable(mut wc) = reply {
        wc.write_all(&mut queue.mem, b"first").unwrap();
        assert_eq!(wc.written(), 5);
        wc.rewind();
        assert_eq!(wc.written(), 0);
        assert_eq!(wc.remaining(), 16);
        wc.write_all(&mut queue.mem, b"second").unwrap();
        assert_eq!(wc.written(), 6);
        queue.complete(recv, ReplyChain::Writable(wc));
    } else {
        panic!("expected Writable");
    }
    queue.drain();
}

/// Make two adjacent four-byte writable buffers available.
fn two_writables(queue: &mut Queue) -> (RingProducer, u64, u16) {
    let mut ring_producer = RingProducer::new(queue.layout);
    let base = payload_base(16);
    let chain = BufferChainBuilder::new()
        .writable(base, 4)
        .writable(base + 4, 4)
        .build()
        .unwrap();
    let id = ring_producer
        .submit_available(&mut queue.mem, &chain)
        .unwrap();
    (ring_producer, base, id)
}

#[test]
fn test_writable_reply_scatters_across_segments() {
    let mut queue = make_queue();
    let (mut ring_producer, base, id) = two_writables(&mut queue);

    let (recv, reply) = queue.poll_data();
    assert!(recv.to_bytes(&queue.mem).unwrap().is_empty());

    let ReplyChain::Writable(mut wc) = reply else {
        panic!("expected Writable");
    };
    assert_eq!(wc.capacity(), 8);
    wc.write_all(&mut queue.mem, b"abcdefgh").unwrap();
    assert_eq!(wc.written(), 8);
    queue.complete(recv, ReplyChain::Writable(wc));

    let mut first = [0u8; 4];
    let mut second = [0u8; 4];
    queue.mem.read(base, &mut first).unwrap();
    queue.mem.read(base + 4, &mut second).unwrap();
    assert_eq!(&first, b"abcd");
    assert_eq!(&second, b"efgh");

    let used = ring_producer.poll_used(&queue.mem).unwrap();
    assert_eq!(used.id, id);
    assert_eq!(used.len, 8);
}

#[test]
fn test_writable_short_write_reports_contiguous_used_length() {
    let mut queue = make_queue();
    let base = payload_base(16);
    queue.mem.write(base, &[0xff; 8]).unwrap();
    let (mut ring_producer, _, id) = two_writables(&mut queue);

    let (recv, reply) = queue.poll_data();
    let ReplyChain::Writable(mut writable) = reply else {
        panic!("expected writable reply");
    };

    writable.write_all(&mut queue.mem, b"abc").unwrap();
    writable.write_all(&mut queue.mem, b"def").unwrap();
    assert_eq!(writable.written(), 6);
    assert_eq!(writable.remaining(), 2);

    queue.complete(recv, ReplyChain::Writable(writable));

    let mut contents = [0u8; 8];
    queue.mem.read(base, &mut contents).unwrap();
    assert_eq!(&contents, b"abcdef\xff\xff");

    let used = ring_producer.poll_used(&queue.mem).unwrap();
    assert_eq!(used.id, id);
    assert_eq!(used.len, 6);
}

#[test]
fn test_multiple_pending_replies() {
    let mut queue = make_queue();
    let builder = queue.producer.chain().writable(16);
    queue.send(builder, b"");
    let builder = queue.producer.chain().writable(16);
    queue.send(builder, b"");

    let (e1, c1) = queue.poll_data();
    let (e2, c2) = queue.poll_data();

    // Complete in reverse order
    queue.complete(e2, c2);
    queue.complete(e1, c1);
    assert_eq!(queue.drain().len(), 2);
}

#[test]
fn test_mismatched_completion_fails_closed() {
    let mut queue = make_queue();
    let builder = queue.producer.chain().readable(1);
    queue.send(builder, b"a");
    let builder = queue.producer.chain().readable(1);
    queue.send(builder, b"b");

    let (recv1, _reply1) = queue.poll_data();
    let (_recv2, reply2) = queue.poll_data();

    assert!(matches!(
        queue.consumer.complete(&mut queue.mem, recv1, reply2),
        Err(VirtqError::InvalidState)
    ));
    assert_eq!(queue.consumer.inner.num_inflight(), 2);
    assert!(queue.producer.poll(&mut queue.mem).unwrap().is_none());
    assert!(matches!(
        queue.consumer.reset(&mut queue.mem),
        Err(VirtqError::InvalidState)
    ));

    queue.producer.reset(&mut queue.mem).unwrap();
}

#[test]
fn test_recv_to_bytes_preserves_reader_position() {
    let mut queue = make_queue();
    let builder = queue.producer.chain().readable(16);
    queue.send(builder, b"abc");

    let (mut recv, reply) = queue.poll_data();
    let mut first = [0u8; 1];
    recv.read_exact(&queue.mem, &mut first).unwrap();
    let data = recv.to_bytes(&queue.mem).unwrap();
    assert_eq!(&first, b"a");
    assert_eq!(data.as_ref(), b"abc");
    assert_eq!(recv.consumed(), 1);
    queue.complete(recv, reply);
    queue.drain();
}

#[test]
fn test_virtq_consumer_reset() {
    let mut queue = make_queue();

    // Submit and poll (but do not complete)
    let builder = queue.producer.chain().writable(16);
    queue.send(builder, b"");

    let (recv, reply) = queue.poll_data();
    assert!(queue.consumer.inner.num_inflight() > 0);
    assert!(matches!(
        queue.consumer.reset(&mut queue.mem),
        Err(VirtqError::InvalidState)
    ));

    // Complete first so we do not leak
    queue.complete(recv, reply);

    queue.consumer.reset(&mut queue.mem).unwrap();

    assert_eq!(queue.consumer.inner.num_inflight(), 0);
    queue.producer.reset(&mut queue.mem).unwrap();
}

#[test]
fn test_virtq_consumer_reset_clears_inflight() {
    let mut queue = make_queue();

    // Submit two entries and poll both
    let builder = queue.producer.chain().writable(16);
    queue.send(builder, b"");
    let builder = queue.producer.chain().writable(16);
    queue.send(builder, b"");

    let (e1, c1) = queue.poll_data();
    let (e2, c2) = queue.poll_data();
    // Complete both before reset
    queue.complete(e1, c1);
    queue.complete(e2, c2);

    queue.consumer.reset(&mut queue.mem).unwrap();

    assert_eq!(queue.consumer.inner.num_inflight(), 0);
    queue.producer.reset(&mut queue.mem).unwrap();
}

#[test]
fn failed_completion_keeps_reset_blocked() {
    let mut queue = Queue::new(4, 256);
    let builder = queue.producer.chain().writable(8);
    queue.send(builder, b"");
    let (recv, reply) = queue.consumer.poll(&mut queue.mem, 0).unwrap().unwrap();

    queue.mem.writes_left = Some(0);
    assert!(matches!(
        queue.consumer.complete(&mut queue.mem, recv, reply),
        Err(VirtqError::RingError(RingError::MemError { .. }))
    ));
    queue.mem.writes_left = None;
    assert_eq!(queue.consumer.inner.num_inflight(), 1);
    assert!(matches!(
        queue.consumer.reset(&mut queue.mem),
        Err(VirtqError::InvalidState)
    ));

    queue.producer.reset(&mut queue.mem).unwrap();
}

#[test]
fn a_submitted_payload_is_received_and_its_reply_read_back() {
    let mut queue = Queue::new(16, 8);
    let builder = queue.producer.chain().readable(20).writable(12);
    let token = queue.send(builder, b"twenty bytes of data");

    let (recv, reply) = queue.poll_data();
    assert_eq!(
        recv.to_bytes(&queue.mem).unwrap().as_ref(),
        b"twenty bytes of data"
    );
    assert_eq!(recv.to_segments(&queue.mem).unwrap().segment_count(), 3);
    let ReplyChain::Writable(mut writable) = reply else {
        panic!("expected Writable");
    };
    writable.write_all(&mut queue.mem, b"ten bytes!").unwrap();
    queue.complete(recv, ReplyChain::Writable(writable));

    let used = queue.producer.poll(&mut queue.mem).unwrap().unwrap();
    assert_eq!(used.token(), token);
    assert_eq!(used.to_bytes().unwrap().as_ref(), b"ten bytes!");
    assert!(queue.producer.poll(&mut queue.mem).unwrap().is_none());
    assert!(queue.consumer.poll(&mut queue.mem, 8).unwrap().is_none());
}

#[test]
fn the_driver_is_notified_of_used_chains() {
    let mut queue = make_queue();
    let builder = queue.producer.chain().writable(16);
    queue.send(builder, b"");
    assert_eq!(queue.producer.notifier.count, 1);
    let (recv, reply) = queue.poll_data();
    queue.complete(recv, reply);
    assert_eq!(queue.consumer.notifier.count, 1);
}

#[test]
fn an_unreadable_ring_is_reported() {
    let mut queue = make_queue();
    queue.mem.unreadable = BASE_ADDR..BASE_ADDR + 16;
    assert!(matches!(
        queue.consumer.poll(&mut queue.mem, 8),
        Err(VirtqError::RingError(RingError::MemError { .. }))
    ));
}

#[test]
fn a_failed_read_keeps_the_bytes_before_it() {
    let mut queue = make_queue();
    let builder = queue.producer.chain().readable(4).readable(4);
    let mut chain = queue.build(builder);
    queue.write_all(&mut chain, b"abcdefgh");
    let second = chain.owned.descriptors()[1].addr;
    queue.submit(chain);

    let (mut recv, reply) = queue.poll_data();
    queue.mem.unreadable = second..second + 4;
    let mut buf = [b'-'; 8];
    assert!(matches!(
        recv.read(&queue.mem, &mut buf),
        Err(VirtqError::MemoryReadError)
    ));
    assert_eq!(recv.consumed(), 4);
    assert_eq!(&buf, b"abcd----");

    queue.mem.unreadable = 0..0;
    let mut rest = [0; 4];
    recv.read_exact(&queue.mem, &mut rest).unwrap();
    assert_eq!(&rest, b"efgh");
    queue.complete(recv, reply);
    queue.drain();
}

#[test]
fn a_failed_reply_keeps_the_bytes_before_it() {
    let mut queue = make_queue();
    let builder = queue.producer.chain().writable(256).writable(256);
    let chain = queue.build(builder);
    let places: Vec<u64> = chain.owned.descriptors().iter().map(|e| e.addr).collect();
    queue.submit(chain);

    let (recv, reply) = queue.poll_data();
    let ReplyChain::Writable(mut reply) = reply else {
        panic!("expected writable reply");
    };
    queue.mem.writes_left = Some(1);
    assert!(matches!(
        reply.write(&mut queue.mem, &[7; 260]),
        Err(VirtqError::MemoryWriteError)
    ));
    queue.mem.writes_left = None;
    assert_eq!(reply.written(), 256);
    let mut stored = [0; 256];
    queue.mem.read(places[0], &mut stored).unwrap();
    assert_eq!(stored, [7; 256]);
    queue.mem.read(places[1], &mut stored).unwrap();
    assert_eq!(stored, [0; 256]);

    queue.complete(recv, ReplyChain::Writable(reply));
    let used = queue.drain();
    assert_eq!(used.len(), 1);
}

#[test]
fn reset_waits_for_the_last_chain() {
    let mut queue = make_queue();
    for _ in 0..3 {
        let builder = queue.producer.chain().readable(16);
        queue.send(builder, b"held");
    }
    let mut held = Vec::new();
    for _ in 0..3 {
        held.push(queue.poll_data());
    }
    while let Some((recv, reply)) = held.pop() {
        assert!(matches!(
            queue.consumer.reset(&mut queue.mem),
            Err(VirtqError::InvalidState)
        ));
        queue.complete(recv, reply);
    }
    queue.consumer.reset(&mut queue.mem).unwrap();
    assert_eq!(queue.consumer.inner.num_inflight, 0);
    assert_eq!(queue.consumer.avail_cursor().head(), 0);
    assert!(queue.consumer.avail_cursor().wrap());
    assert_eq!(queue.consumer.used_cursor().head(), 0);
}
