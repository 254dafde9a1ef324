//! The driver side of a queue.

use std::cell::RefCell;
use std::rc::Rc;

use bytes::Bytes;
use hyperlight::fuzz::memory::FuzzMem;
use hyperlight::virtq::desc::{DESC_AVAIL, DESC_USED};
use hyperlight::virtq::inflight::{Inflight, InflightTable};
use hyperlight::virtq::{
    AllocError, Allocation, BufferLease, BufferMap, ChainBuilder, Layout, MemOps, Notifier,
    QueueStats, RecvChain, ReplyChain, RingConsumer, RingError, SendChain, SlotLayout, SlotPool,
    SuppressionKind, Token, UsedChain, VirtqConsumer, VirtqError, VirtqProducer,
};

const BASE_ADDR: u64 = 0x1_0000;

/// Memory that can refuse accesses.
struct TestMem {
    bytes: Rc<RefCell<Vec<u8>>>,
    /// Writes left before one fails.
    writes_left: Option<usize>,
    /// Mappings left before one fails.
    maps_left: Option<usize>,
    map_calls: usize,
}

impl TestMem {
    fn new(len: usize) -> Self {
        Self {
            bytes: Rc::new(RefCell::new(vec![0; len])),
            writes_left: None,
            maps_left: None,
            map_calls: 0,
        }
    }

    /// The same bytes, with mappings counted and refused on their own.
    fn handle(&self) -> Self {
        Self {
            bytes: self.bytes.clone(),
            writes_left: None,
            maps_left: None,
            map_calls: 0,
        }
    }

    fn offset(&self, addr: u64, len: usize) -> Result<usize, ()> {
        let offset = addr.checked_sub(BASE_ADDR).ok_or(())? as usize;
        match offset.checked_add(len) {
            Some(end) if end <= self.bytes.borrow().len() => Ok(offset),
            _ => Err(()),
        }
    }
}

impl MemOps for TestMem {
    type Error = ();

    fn read(&self, addr: u64, dst: &mut [u8]) -> Result<(), ()> {
        let offset = self.offset(addr, dst.len())?;
        dst.copy_from_slice(&self.bytes.borrow()[offset..offset + dst.len()]);
        Ok(())
    }

    fn write(&mut self, addr: u64, src: &[u8]) -> Result<(), ()> {
        match &mut self.writes_left {
            Some(0) => return Err(()),
            Some(left) => *left -= 1,
            None => {}
        }
        let offset = self.offset(addr, src.len())?;
        self.bytes.borrow_mut()[offset..offset + src.len()].copy_from_slice(src);
        Ok(())
    }

    fn load_acquire(&self, addr: u64) -> Result<u16, ()> {
        let mut word = [0; 2];
        self.read(addr, &mut word)?;
        Ok(u16::from_le_bytes(word))
    }

    fn store_release(&mut self, addr: u64, val: u16) -> Result<(), ()> {
        self.write(addr, &val.to_le_bytes())
    }
}

impl BufferMap for TestMem {
    fn map_buffer(&mut self, allocation: Allocation, written: usize) -> Result<Bytes, ()> {
        assert!(written <= allocation.len as usize);
        self.map_calls += 1;
        match &mut self.maps_left {
            Some(0) => return Err(()),
            Some(left) => *left -= 1,
            None => {}
        }
        let mut bytes = vec![0; written];
        self.read(allocation.addr, &mut bytes)?;
        Ok(Bytes::from(bytes))
    }
}

#[derive(Default)]
struct TestNotifier {
    count: usize,
}

impl Notifier for TestNotifier {
    fn notify(&mut self, _stats: QueueStats) {
        self.count += 1;
    }
}

/// Both sides of a queue and their memory.
struct Queue {
    mem: TestMem,
    layout: Layout,
    producer: VirtqProducer<TestNotifier>,
    consumer: VirtqConsumer<TestNotifier>,
}

fn pool_base(size: u16) -> u64 {
    BASE_ADDR + Layout::query_size(size as usize) as u64 + 0x100
}

impl Queue {
    fn with_pool(size: u16, pool: SlotPool) -> Self {
        let layout = Layout::from_base(BASE_ADDR, size).unwrap();
        Self {
            mem: TestMem::new(0x2_0000),
            layout,
            producer: VirtqProducer::new(layout, TestNotifier::default(), pool),
            consumer: VirtqConsumer::new(layout, TestNotifier::default()),
        }
    }

    fn new(size: u16, slot_size: usize, slots: usize) -> Self {
        let layout = SlotLayout::new(pool_base(size), slot_size, slots).unwrap();
        Self::with_pool(size, SlotPool::new(layout).unwrap())
    }

    fn tiered(size: u16, slot_size: usize) -> Self {
        let lower = SlotLayout::new(pool_base(size), slot_size / 2, size as usize).unwrap();
        let upper = SlotLayout::new(lower.end_addr(), slot_size, size as usize).unwrap();
        Self::with_pool(size, SlotPool::new_tiered(lower, upper).unwrap())
    }

    fn chain(&self) -> ChainBuilder {
        self.producer.chain()
    }

    fn build(&mut self, builder: ChainBuilder) -> SendChain {
        builder.build(&mut self.producer.pool).unwrap()
    }

    fn submit(&mut self, chain: SendChain) -> Token {
        self.producer.submit(&mut self.mem, chain).unwrap()
    }

    fn send(&mut self, builder: ChainBuilder, data: &[u8]) -> Token {
        let mut chain = self.build(builder);
        if !data.is_empty() {
            chain.write_all(&mut self.mem, data).unwrap();
        }
        self.submit(chain)
    }

    fn receive(&mut self) -> (RecvChain, ReplyChain) {
        self.consumer.poll(&mut self.mem, 1024).unwrap().unwrap()
    }

    fn complete(&mut self, recv: RecvChain, reply: ReplyChain) {
        self.consumer.complete(&mut self.mem, recv, reply).unwrap()
    }

    /// Take the next chain and answer it.
    fn answer(&mut self, data: &[u8]) {
        let (recv, reply) = self.receive();
        let ReplyChain::Writable(mut writable) = reply else {
            panic!("expected writable reply");
        };
        writable.write_all(&mut self.mem, data).unwrap();
        self.complete(recv, ReplyChain::Writable(writable));
    }

    fn poll(&mut self) -> Result<Option<UsedChain>, VirtqError> {
        self.producer.poll(&mut self.mem)
    }

    fn reset(&mut self) {
        self.producer.reset(&mut self.mem).unwrap();
    }

    /// Take every completed chain and give its buffers back.
    fn drain(&mut self) {
        let mut used = Vec::new();
        self.producer.drain(&mut self.mem, &mut used).unwrap();
        for chain in used {
            self.release(chain);
        }
    }

    fn release(&mut self, chain: UsedChain) {
        if let Some((_, leases)) = chain.into_segments() {
            release_all(leases, &mut self.producer.pool);
        }
    }
}

fn release_all(leases: Vec<BufferLease>, pool: &mut SlotPool) {
    for lease in leases {
        lease.release(pool).unwrap();
    }
}

fn make_queue(size: u16) -> Queue {
    Queue::new(size, 256, 64)
}

fn make_pool(lower_count: usize, upper_count: usize, slot_size: usize) -> SlotPool {
    let lower_len = lower_count * 256;
    let upper = SlotLayout::new(BASE_ADDR + lower_len as u64, slot_size, upper_count).unwrap();
    if lower_count == 0 {
        SlotPool::new(upper)
    } else {
        let lower = SlotLayout::new(BASE_ADDR, 256, lower_count).unwrap();
        SlotPool::new_tiered(lower, upper)
    }
    .unwrap()
}

fn addresses(chain: &SendChain) -> Vec<u64> {
    chain
        .owned
        .descriptors()
        .iter()
        .map(|elem| elem.addr)
        .collect()
}

fn inflight(pool: &mut SlotPool, seq: u32, id: u16) -> Inflight {
    let chain = ChainBuilder::new(1).readable(8).build(pool).unwrap();
    Inflight {
        token: Token { seq, id },
        chain: chain.owned,
    }
}

#[test]
fn inflight_table_repairs_moved_entry_after_removal() {
    let mut pool = make_pool(0, 3, 8);
    let mut table = InflightTable::new(16);
    for (seq, id) in [(0, 3), (1, 7), (2, 5)] {
        table.try_reserve_one().unwrap();
        table.insert(inflight(&mut pool, seq, id));
    }

    let removed = table.remove(7).unwrap();
    assert_eq!(removed.token.seq, 1);

    removed.chain.release(&mut pool).unwrap();
    assert!(!table.contains(7));

    for (id, seq) in [(5, 2), (3, 0)] {
        let removed = table.remove(id).unwrap();
        assert_eq!(removed.token.seq, seq);
        removed.chain.release(&mut pool).unwrap();
    }
    assert_eq!(table.len(), 0);
    assert!(table.remove(7).is_none());
    assert_eq!(pool.num_live(), 0);
}

#[test]
fn full_ring_still_reports_backpressure() {
    let mut queue = make_queue(4);

    for _ in 0..4 {
        let builder = queue.chain().readable(1);
        queue.send(builder, b"");
    }

    let builder = queue.chain().readable(1);
    assert!(matches!(
        builder.build(&mut queue.producer.pool),
        Err(VirtqError::Backpressure)
    ));
    queue.reset();
}

#[test]
fn submission_rechecks_capacity_after_reservation() {
    let mut queue = Queue::tiered(2, 64);

    let builder = queue.chain().writable(64);
    let chain = queue.build(builder);
    for _ in 0..2 {
        let builder = queue.chain().writable(32);
        queue.send(builder, b"");
    }

    assert_eq!(queue.producer.pool.num_live(), 3);
    assert!(matches!(
        queue.producer.submit(&mut queue.mem, chain),
        Err(VirtqError::Backpressure)
    ));
    assert_eq!(queue.producer.pool.num_live(), 2);

    queue.reset();
    queue.consumer.reset(&mut queue.mem).unwrap();

    assert_eq!(queue.producer.pool.num_live(), 0);
}

#[test]
fn publication_failure_keeps_allocations_until_stopped_reset() {
    for failed_write in 0..4 {
        let mut queue = Queue::new(4, 64, 4);
        let builder = queue.chain().writable(64);
        let chain = queue.build(builder);

        queue.mem.writes_left = Some(failed_write);

        let res = queue.producer.submit(&mut queue.mem, chain);
        assert!(matches!(
            res,
            Err(VirtqError::RingError(RingError::MemError { .. }))
        ));
        assert_eq!(queue.producer.pool.num_live(), 1);
        assert_eq!(queue.producer.inflight.len(), 1);

        queue.mem.writes_left = None;
        queue.reset();

        assert_eq!(queue.producer.pool.num_live(), 0);
    }
}

#[test]
fn chain_clones_pool_only_for_independent_owners() {
    let mut queue = Queue::new(8, 64, 8);

    let builder = queue.chain().readable(192).writable(192);
    let mut chain = queue.build(builder);
    chain.write_all(&mut queue.mem, b"request").unwrap();

    assert_eq!(queue.producer.pool.num_live(), 6);

    queue.submit(chain);
    queue.answer(&[0xa5; 70]);

    let used = queue.poll().unwrap().unwrap();
    let (segments, mut leases) = used.into_segments().unwrap();

    assert_eq!(segments.segment_count(), 2);
    assert_eq!(queue.mem.map_calls, 2);
    assert_eq!(leases.len(), 2);
    assert_eq!(queue.producer.pool.num_live(), 2);

    let retained = segments.as_slice()[0].slice(1..);
    let cloned = retained.clone();

    drop(segments);
    let last = leases.pop().unwrap();
    last.release(&mut queue.producer.pool).unwrap();

    assert_eq!(queue.producer.pool.num_live(), 1);

    queue.reset();
    queue.consumer.reset(&mut queue.mem).unwrap();

    let Queue { producer, mem, .. } = queue;
    let mut pool = producer.pool;

    assert_eq!(retained.as_ref(), &[0xa5; 63]);

    drop(retained);

    assert_eq!(pool.num_live(), 1);

    drop(cloned);
    release_all(leases, &mut pool);

    assert_eq!(pool.num_live(), 0);
    assert_eq!(mem.map_calls, 2);
}

#[test]
fn completion_uses_its_original_memory_and_allocating_pool() {
    let base = pool_base(4);
    let mut original = SlotPool::new(SlotLayout::new(base, 64, 4).unwrap()).unwrap();
    let replacement = SlotPool::new(SlotLayout::new(base + 0x1000, 64, 4).unwrap()).unwrap();

    let layout = Layout::from_base(BASE_ADDR, 4).unwrap();
    let source = VirtqProducer::new(
        layout,
        TestNotifier::default(),
        SlotPool::new(SlotLayout::new(base + 0x2000, 64, 4).unwrap()).unwrap(),
    );
    let chain = source.chain().writable(64).build(&mut original).unwrap();
    drop(source);

    // The queue works on a handle that maps nothing; the completion is mapped through the
    // handle that it is polled with.
    let mut queue = Queue::with_pool(4, replacement);
    let mut original_mem = queue.mem.handle();
    queue.mem.maps_left = Some(0);
    queue.submit(chain);
    queue.answer(b"retained");

    let used = queue.producer.poll(&mut original_mem).unwrap().unwrap();
    let (data, leases) = used.into_segments().unwrap();

    assert_eq!(data.to_vec(), b"retained");
    assert_eq!(original.num_live(), 1);
    assert_eq!(queue.producer.pool.num_live(), 0);
    assert_eq!(queue.mem.map_calls, 0);
    assert_eq!(original_mem.map_calls, 1);

    drop(queue);

    assert_eq!(data.to_vec(), b"retained");

    drop(data);
    release_all(leases, &mut original);

    assert_eq!(original.num_live(), 0);
}

#[test]
fn a_reset_gives_slots_of_another_pool_back_there() {
    let base = pool_base(4);
    let other = || SlotPool::new(SlotLayout::new(base + 0x1000, 64, 4).unwrap()).unwrap();

    let mut queue = Queue::new(4, 64, 4);
    let mut pool = other();
    let chain = queue.chain().writable(128).build(&mut pool).unwrap();
    queue.submit(chain);
    assert_eq!(pool.num_live(), 2);
    queue
        .producer
        .reset_with_pool(&mut queue.mem, &mut pool)
        .unwrap();
    assert_eq!(pool.num_live(), 0);
    assert_eq!(queue.producer.inflight.len(), 0);
    assert_eq!(queue.producer.pool.num_live(), 0);

    let mut queue = Queue::new(4, 64, 4);
    let mut pool = other();
    let chain = queue.chain().writable(64).build(&mut pool).unwrap();
    queue.submit(chain);
    assert!(matches!(
        queue.producer.reset(&mut queue.mem),
        Err(VirtqError::Alloc(_))
    ));
    assert_eq!(pool.num_live(), 1);
}

#[test]
fn slots_of_another_pool_go_back_there() {
    let base = pool_base(4);
    let mut other = SlotPool::new(SlotLayout::new(base + 0x1000, 64, 4).unwrap()).unwrap();
    let mut queue = Queue::new(4, 64, 4);

    let mut chain = queue.chain().readable(64).build(&mut other).unwrap();
    chain.write_all(&mut queue.mem, b"elsewhere").unwrap();
    let token = queue.submit(chain);
    let (recv, reply) = queue.receive();
    queue.complete(recv, reply);

    let free = queue.producer.pool.num_free();
    let used = queue
        .producer
        .poll_with_pool(&mut queue.mem, &mut other)
        .unwrap()
        .unwrap();
    match used {
        UsedChain::Ack(acked) => assert_eq!(acked, token),
        UsedChain::Data(..) => panic!("expected an acknowledgement"),
    }
    assert_eq!(other.num_live(), 0);
    assert_eq!(queue.producer.pool.num_free(), free);

    // A reply stays in its slot until the lease on it is released there.
    let chain = queue
        .chain()
        .readable(64)
        .writable(64)
        .build(&mut other)
        .unwrap();
    queue.submit(chain);
    queue.answer(b"there");
    let used = queue
        .producer
        .poll_with_pool(&mut queue.mem, &mut other)
        .unwrap()
        .unwrap();
    assert_eq!(other.num_live(), 1);
    let (segments, leases) = used.into_segments().unwrap();
    assert_eq!(segments.to_vec(), b"there");
    release_all(leases, &mut other);
    assert_eq!(other.num_live(), 0);
    assert_eq!(queue.producer.pool.num_free(), free);
}

#[test]
fn a_failed_write_keeps_the_chunks_before_it() {
    let mut queue = make_queue(8);
    let builder = queue.chain().readable(4).readable(4);
    let mut chain = queue.build(builder);
    let places = addresses(&chain);

    queue.mem.writes_left = Some(1);
    assert!(matches!(
        chain.write(&mut queue.mem, b"abcdef"),
        Err(VirtqError::MemoryWriteError)
    ));
    assert_eq!(chain.written(), 4);
    let mut first = [0; 4];
    queue.mem.read(places[0], &mut first).unwrap();
    assert_eq!(&first, b"abcd");
    let mut second = [0; 4];
    queue.mem.read(places[1], &mut second).unwrap();
    assert_eq!(second, [0; 4]);

    queue.mem.writes_left = None;
    chain.write_all(&mut queue.mem, b"wxyz").unwrap();
    queue.submit(chain);
    let (recv, reply) = queue.receive();
    assert_eq!(recv.to_bytes(&queue.mem).unwrap().as_ref(), b"abcdwxyz");
    queue.complete(recv, reply);
    queue.drain();
}

#[test]
fn mapping_failure_releases_returned_and_unmapped_slots() {
    for fail_at in 0..2 {
        let mut queue = Queue::new(8, 64, 8);
        queue.mem.maps_left = Some(fail_at);
        let mut consumer = RingConsumer::new(queue.layout);

        let builder = queue.chain().readable(192).writable(256);
        let chain = queue.build(builder);
        let mut expected = addresses(&chain);
        queue.submit(chain);

        let (id, _) = consumer.poll_available(&queue.mem).unwrap();
        // Zeroed memory supplies initialized bytes for the mapped prefix.
        consumer.submit_used(&mut queue.mem, id, 70).unwrap();

        assert!(matches!(queue.poll(), Err(VirtqError::MemoryReadError)));
        assert_eq!(queue.mem.map_calls, fail_at + 1);
        assert_eq!(queue.producer.pool.num_live(), 0);
        assert_eq!(queue.producer.num_inflight(), 0);

        if fail_at == 1 {
            // The failed buffer is released before the ones that were mapped.
            expected.swap(3, 4);
        }

        let builder = queue.chain().readable(192).writable(256);
        let repeated = queue.build(builder);
        assert_eq!(addresses(&repeated), expected);
    }
}

#[test]
fn empty_and_malformed_completions_skip_mapping_and_release_every_slot() {
    let mut queue = Queue::new(4, 64, 4);
    queue.mem.maps_left = Some(0);
    let mut consumer = RingConsumer::new(queue.layout);

    for (writable, written) in [(false, 0), (true, 0), (true, 129)] {
        let builder = queue.chain().readable(64);
        let builder = if writable {
            builder.writable(128)
        } else {
            builder
        };

        let token = queue.send(builder, b"");
        let (id, _) = consumer.poll_available(&queue.mem).unwrap();
        consumer.submit_used(&mut queue.mem, id, written).unwrap();

        match queue.poll() {
            Ok(Some(UsedChain::Ack(returned))) if !writable => assert_eq!(returned, token),
            Ok(Some(UsedChain::Data(returned, segments, leases))) if writable && written == 0 => {
                assert_eq!(returned, token);
                assert_eq!(segments.segment_count(), 0);
                assert!(leases.is_empty());
            }
            Err(VirtqError::InvalidState) if written == 129 => {}
            _ => panic!("unexpected completion"),
        }

        assert_eq!(queue.mem.map_calls, 0);
        assert_eq!(queue.producer.pool.num_live(), 0);
        assert_eq!(queue.producer.num_inflight(), 0);
    }
}

#[test]
fn cancelling_a_chain_preserves_slot_order_after_a_partial_write_error() {
    let mut mem = TestMem::new(16);
    let t1 = SlotLayout::new(BASE_ADDR, 2, 2).unwrap();
    let t2 = SlotLayout::new(BASE_ADDR + 4, 4, 3).unwrap();
    let mut pool = SlotPool::new_tiered(t1, t2).unwrap();

    let mut chain = ChainBuilder::new(8)
        .readable(9)
        .writable_avail()
        .build(&mut pool)
        .unwrap();
    let expected = addresses(&chain);

    mem.writes_left = Some(1);
    assert!(matches!(
        chain.write_all(&mut mem, b"abcdefghi"),
        Err(VirtqError::MemoryWriteError)
    ));
    assert_eq!(chain.written(), 4);

    chain.release(&mut pool).unwrap();
    assert_eq!(pool.num_live(), 0);

    let repeated = ChainBuilder::new(8)
        .readable(9)
        .writable_avail()
        .build(&mut pool)
        .unwrap();
    assert_eq!(addresses(&repeated), expected);
}

#[test]
fn reset_reclaims_inflight_slots_and_reuses_ring() {
    let mut queue = Queue::new(8, 64, 8);

    for _ in 0..8 {
        let builder = queue.chain().writable(64);
        queue.send(builder, b"");
    }

    assert_eq!(queue.producer.pool.num_free(), 0);

    queue.reset();

    assert_eq!(queue.producer.num_inflight(), 0);
    assert_eq!(queue.producer.num_free(), 8);
    assert_eq!(queue.producer.pool.num_free(), 8);
    assert_eq!(queue.producer.inflight.len(), 0);
    assert!((0..8).all(|id| !queue.producer.inflight.contains(id)));

    for _ in 0..8 {
        let builder = queue.chain().writable(64);
        queue.send(builder, b"");
    }

    queue.reset();
}

#[test]
fn stopped_reset_reuses_slot_after_consumer_handles_drop() {
    let mut queue = Queue::new(4, 4, 1);

    let builder = queue.chain().writable(4);
    queue.send(builder, b"");
    let (recv, reply) = queue.receive();
    assert!(matches!(reply, ReplyChain::Writable(_)));

    drop((recv, reply));
    assert_eq!(queue.producer.pool.num_live(), 1);

    queue.reset();
    assert_eq!(queue.producer.pool.num_live(), 0);

    let builder = queue.chain().readable(4);
    let mut replacement = queue.build(builder);
    assert_eq!(replacement.segment(0), Some((pool_base(4), 4)));
    replacement.write_all(&mut queue.mem, b"GOOD").unwrap();
    queue.submit(replacement);

    queue.consumer = VirtqConsumer::new(queue.layout, TestNotifier::default());
    let (recv, reply) = queue.receive();
    assert_eq!(recv.to_bytes(&queue.mem).unwrap().as_ref(), b"GOOD");
    queue.complete(recv, reply);
    queue.drain();
    assert_eq!(queue.producer.pool.num_live(), 0);
}

#[test]
fn reset_rejects_buffered_writable_completion() {
    let mut queue = make_queue(8);
    let builder = queue.chain().writable(64);
    queue.send(builder, b"");
    queue.answer(b"retained");
    queue.producer.reclaim(&mut queue.mem).unwrap();

    assert!(matches!(
        queue.producer.reset(&mut queue.mem),
        Err(VirtqError::InvalidState)
    ));

    let used = queue.poll().unwrap().unwrap();
    queue.release(used);

    queue.reset();
}

#[test]
fn test_chain_readwrite_build() {
    let mut queue = make_queue(16);
    let builder = queue.chain().readable(64).writable(128);
    let se = queue.build(builder);
    assert_eq!(se.capacity(), 64);
    assert_eq!(se.written(), 0);
    assert_eq!(se.remaining(), 64);
}

#[test]
fn test_chain_readable_writable_names_build() {
    let mut queue = make_queue(16);
    let builder = queue.chain().readable(16).writable(32);
    let se = queue.build(builder);
    assert_eq!(se.desc_count(), 2);
    assert_eq!(se.rd_desc_count(), 1);
    assert_eq!(se.wr_desc_count(), 1);
    assert_eq!(se.capacity(), 16);
}

#[test]
fn test_chain_multi_readable_write_all_scatters() {
    let mut queue = make_queue(16);
    let builder = queue.chain().readable(5).readable(6).writable(32);
    let mut se = queue.build(builder);

    se.write_all(&mut queue.mem, b"hello world").unwrap();
    assert_eq!(se.written(), 11);

    let token = queue.submit(se);
    let (recv, reply) = queue.receive();
    assert_eq!(recv.token(), token);
    assert_eq!(recv.to_bytes(&queue.mem).unwrap().as_ref(), b"hello world");

    let segments = recv.to_segments(&queue.mem).unwrap();
    assert_eq!(segments.segment_count(), 2);
    assert_eq!(segments.as_slice()[0].as_ref(), b"hello");
    assert_eq!(segments.as_slice()[1].as_ref(), b" world");

    queue.complete(recv, reply);
    queue.drain();
}

#[test]
fn test_chain_independent_readables_preserve_pool_tiers() {
    let lower = SlotLayout::new(pool_base(16), 256, 1).unwrap();
    let upper = SlotLayout::new(lower.end_addr(), 4096, 1).unwrap();
    let mut queue = Queue::with_pool(16, SlotPool::new_tiered(lower, upper).unwrap());

    let builder = queue.chain().readable(128).readable(4096);
    let send = queue.build(builder);

    let readables = send.owned.descriptors();

    assert_eq!(readables.len(), 2);
    assert_eq!(readables[0].addr, lower.base_addr());
    assert_eq!(readables[1].addr, upper.base_addr());
    assert_eq!(queue.producer.pool.num_free_lower(), 0);
    assert_eq!(queue.producer.pool.num_free_upper(), 0);

    send.release(&mut queue.producer.pool).unwrap();

    assert_eq!(queue.producer.pool.num_free_lower(), 1);
    assert_eq!(queue.producer.pool.num_free_upper(), 1);
}

#[test]
fn chain_avail_uses_pool_availability_at_build() {
    for held_count in [0, 2, 3] {
        let mut pool = make_pool(2, 3, 4096);
        let builder = ChainBuilder::new(3).writable_avail().readable(128);

        assert_eq!(pool.num_live(), 0);

        let held: Vec<_> = (0..held_count)
            .map(|_| pool.allocate(4096).unwrap())
            .collect();

        let chain = builder.build(&mut pool).unwrap();

        let writable = (3 - held_count).min(2);
        assert_eq!(chain.rd_desc_count(), 1);
        assert_eq!(chain.wr_desc_count(), writable);
        assert_eq!(chain.desc_count(), 1 + writable);
        assert_eq!(chain.segment(0).unwrap().1, 128);
        assert!(chain.owned.descriptors()[1..]
            .iter()
            .all(|elem| elem.len == 4096));
        assert_eq!(pool.num_free_lower(), 1);
        assert_eq!(pool.num_free_upper(), 3 - held_count - writable);
        assert_eq!(pool.num_live(), held_count + chain.desc_count());

        chain.release(&mut pool).unwrap();

        assert_eq!(pool.num_live(), held_count);

        for allocation in held.into_iter().rev() {
            pool.dealloc(allocation.addr).unwrap();
        }

        assert_eq!(pool.num_live(), 0);
    }
}

#[test]
fn chain_avail_respects_mandatory_descriptor_budget() {
    for max_descs in 0..3 {
        let mut pool = make_pool(2, 3, 4096);

        let result = ChainBuilder::new(max_descs)
            .readable(4096)
            .readable(128)
            .writable_avail()
            .build(&mut pool);

        if max_descs == 2 {
            let chain = result.unwrap();

            assert_eq!(chain.rd_desc_count(), 2);
            assert_eq!(chain.wr_desc_count(), 0);

            chain.release(&mut pool).unwrap();
        } else {
            assert!(matches!(result, Err(VirtqError::Backpressure)));
        }

        assert_eq!(pool.num_live(), 0);

        let lower = pool.allocate(128).unwrap();
        let upper = pool.allocate(4096).unwrap();

        assert_eq!(lower.addr, pool.slot_addr(1).unwrap());
        assert_eq!(upper.addr, pool.slot_addr(4).unwrap());

        pool.dealloc(lower.addr).unwrap();
        pool.dealloc(upper.addr).unwrap();
    }
}

#[test]
fn chain_avail_preserves_explicit_writable_capacity_when_full() {
    for (upper_count, max_descs) in [(2, 2), (1, 3)] {
        let mut pool = make_pool(1, upper_count, 4096);

        let chain = ChainBuilder::new(max_descs)
            .writable_avail()
            .writable(128)
            .readable(128)
            .build(&mut pool)
            .unwrap();

        assert_eq!(chain.rd_desc_count(), 1);
        assert_eq!(chain.wr_desc_count(), 1);
        assert_eq!(chain.segment(0).unwrap().1, 128);
        assert_eq!(chain.owned.descriptors()[1].len, 4096);
        assert_eq!(chain.written(), 0);
        assert_eq!(pool.num_free_upper(), upper_count - 1);

        chain.release(&mut pool).unwrap();

        assert_eq!(pool.num_live(), 0);
    }
}

#[test]
fn chain_avail_cannot_build_an_empty_chain() {
    for max_descs in [0, 2] {
        let mut pool = make_pool(1, 1, 4096);
        let held = (max_descs != 0).then(|| pool.allocate(4096).unwrap());

        assert!(matches!(
            ChainBuilder::new(max_descs)
                .writable_avail()
                .build(&mut pool),
            Err(VirtqError::Backpressure)
        ));
        assert_eq!(pool.num_free_lower(), 1);
        assert_eq!(pool.num_live(), usize::from(held.is_some()));

        if let Some(allocation) = held {
            pool.dealloc(allocation.addr).unwrap();
        }
    }
}

#[test]
fn chain_avail_only_uses_upper_slots() {
    let mut pool = make_pool(4, 2, 4096);

    let chain = ChainBuilder::new(6)
        .writable_avail()
        .writable_avail()
        .build(&mut pool)
        .unwrap();

    assert_eq!(chain.rd_desc_count(), 0);
    assert_eq!(chain.wr_desc_count(), 2);
    assert_eq!(pool.num_free_lower(), 4);
    assert_eq!(pool.num_free_upper(), 0);

    chain.release(&mut pool).unwrap();

    assert_eq!(pool.num_live(), 0);
}

#[test]
fn chain_preserves_region_order_with_odd_slot_sizes() {
    let mut pool = make_pool(1, 4, 3001);

    // The final short readable must fall back to an upper slot.
    let chain = ChainBuilder::new(5)
        .readable(128)
        .readable(6003)
        .writable_avail()
        .build(&mut pool)
        .unwrap();

    assert_eq!(chain.rd_desc_count(), 4);
    let mut actual = Vec::new();
    for index in 0..4 {
        actual.push(chain.segment(index).unwrap());
    }
    let last = chain.owned.descriptors()[4];
    actual.push((last.addr, last.len));
    let actual: Vec<_> = actual
        .into_iter()
        .map(|(addr, capacity)| (addr, capacity, pool.allocation_len(addr).unwrap()))
        .collect();

    let expected = [
        (0, 128, 256),
        (4, 3001, 3001),
        (3, 3001, 3001),
        (2, 1, 3001),
        (1, 3001, 3001),
    ]
    .map(|(slot, capacity, allocated)| (pool.slot_addr(slot).unwrap(), capacity, allocated));

    assert_eq!(actual, expected);

    chain.release(&mut pool).unwrap();

    assert_eq!(pool.num_live(), 0);
}

#[test]
fn chain_failure_releases_only_its_own_slots() {
    let mut pool = make_pool(2, 3, 4096);
    let held = pool.allocate(4096).unwrap();

    assert!(matches!(
        ChainBuilder::new(4)
            .readable(128)
            .writable(4096 * 3)
            .build(&mut pool),
        Err(VirtqError::Backpressure)
    ));
    assert_eq!(pool.live_addrs(), [held.addr]);

    let lower = pool.allocate(128).unwrap();
    let upper = pool.allocate(4096).unwrap();
    let next_upper = pool.allocate(4096).unwrap();

    assert_eq!(lower.addr, pool.slot_addr(1).unwrap());
    assert_eq!(upper.addr, pool.slot_addr(3).unwrap());
    assert_eq!(next_upper.addr, pool.slot_addr(2).unwrap());

    pool.dealloc(next_upper.addr).unwrap();
    pool.dealloc(upper.addr).unwrap();
    pool.dealloc(lower.addr).unwrap();
    pool.dealloc(held.addr).unwrap();
}

#[test]
fn chain_rejects_invalid_request_sequences() {
    for (readable, writable) in [(vec![128, 0], vec![]), (vec![128], vec![4096, 0])] {
        let mut pool = make_pool(1, 1, 4096);
        let mut builder = ChainBuilder::new(4);

        for cap in readable {
            builder = builder.readable(cap);
        }
        for cap in writable {
            builder = builder.writable(cap);
        }

        assert!(matches!(
            builder.build(&mut pool),
            Err(VirtqError::Alloc(AllocError::InvalidArg))
        ));
        assert_eq!(pool.num_live(), 0);
    }

    let mut pool = make_pool(1, 1, 4096);

    assert!(matches!(
        ChainBuilder::new(4)
            .readable(usize::MAX)
            .readable(1)
            .build(&mut pool),
        Err(VirtqError::Alloc(AllocError::Overflow))
    ));
    assert_eq!(pool.num_live(), 0);
}

#[test]
fn test_chain_multi_readable_appends_across_calls() {
    let mut queue = Queue::tiered(16, 4);

    let builder = queue.chain().readable(8);
    let mut send = queue.build(builder);
    send.write_all(&mut queue.mem, b"abc").unwrap();
    send.write_all(&mut queue.mem, b"def").unwrap();
    assert_eq!(send.written(), 6);
    assert_eq!(send.remaining(), 2);

    queue.submit(send);
    let (recv, reply) = queue.receive();
    let segments = recv.to_segments(&queue.mem).unwrap();
    assert_eq!(segments.segment_count(), 2);
    assert_eq!(segments.as_slice()[0].as_ref(), b"abcd");
    assert_eq!(segments.as_slice()[1].as_ref(), b"ef");
    queue.complete(recv, reply);
    queue.drain();
}

fn check_split_readables(mut queue: Queue, expected_lengths: [usize; 3]) {
    let builder = queue.chain().readable(10).writable(32);
    let mut se = queue.build(builder);

    assert_eq!(se.rd_desc_count(), 3);
    assert_eq!(se.capacity(), 10);

    let places: Vec<_> = (0..3).map(|index| se.segment(index).unwrap()).collect();
    let caps: Vec<_> = places.iter().map(|place| place.1).collect();
    assert_eq!(caps, [4, 4, 2]);

    let lengths: Vec<_> = places
        .iter()
        .map(|place| queue.producer.pool.allocation_len(place.0).unwrap())
        .collect();
    assert_eq!(lengths, expected_lengths);

    se.write_all(&mut queue.mem, b"abcdefghij").unwrap();
    assert_eq!(se.written(), 10);

    let token = queue.submit(se);
    let (recv, reply) = queue.receive();

    assert_eq!(recv.token(), token);
    assert_eq!(recv.to_bytes(&queue.mem).unwrap().as_ref(), b"abcdefghij");

    let segments = recv.to_segments(&queue.mem).unwrap();

    assert_eq!(segments.segment_count(), 3);
    assert_eq!(segments.as_slice()[0].as_ref(), b"abcd");
    assert_eq!(segments.as_slice()[1].as_ref(), b"efgh");
    assert_eq!(segments.as_slice()[2].as_ref(), b"ij");

    queue.complete(recv, reply);
    queue.drain();

    assert_eq!(queue.producer.pool.num_live(), 0);
}

#[test]
fn test_chain_readable_splits_logical_capacity() {
    check_split_readables(Queue::new(16, 4, 64), [4, 4, 4]);
}

#[test]
fn test_chain_readable_splits_logical_capacity_tiered() {
    check_split_readables(Queue::tiered(16, 4), [4, 4, 2]);
}

#[test]
fn test_chain_readable_rejects_zero_capacity_on_build() {
    let mut queue = make_queue(16);
    let builder = queue.chain().readable(0);

    assert!(matches!(
        builder.build(&mut queue.producer.pool),
        Err(VirtqError::Alloc(AllocError::InvalidArg))
    ));
}

#[test]
fn test_chain_writable_splits_logical_capacity() {
    let mut queue = Queue::tiered(16, 4);

    let builder = queue.chain().writable(10);
    let token = queue.send(builder, b"");

    let (recv, reply) = queue.receive();
    let ReplyChain::Writable(mut wc) = reply else {
        panic!("expected writable reply");
    };
    assert_eq!(wc.capacity(), 10);

    wc.write_all(&mut queue.mem, b"abcdefghij").unwrap();
    queue.complete(recv, ReplyChain::Writable(wc));

    let used = queue.poll().unwrap().unwrap();
    assert_eq!(used.token(), token);
    let segments = used.segments().unwrap();
    assert_eq!(segments.segment_count(), 3);
    assert_eq!(segments.as_slice()[0].as_ref(), b"abcd");
    assert_eq!(segments.as_slice()[1].as_ref(), b"efgh");
    assert_eq!(segments.as_slice()[2].as_ref(), b"ij");
}

#[test]
fn test_chain_writable_rejects_zero_capacity_on_build() {
    let mut queue = make_queue(16);
    let builder = queue.chain().writable(0);

    assert!(matches!(
        builder.build(&mut queue.producer.pool),
        Err(VirtqError::Alloc(AllocError::InvalidArg))
    ));
}

#[test]
fn test_chain_multi_readable_write_all_preserves_segments() {
    let mut queue = make_queue(16);
    let builder = queue.chain().readable(4).readable(4);
    queue.send(builder, b"headbody");

    let (recv, reply) = queue.receive();
    assert_eq!(recv.to_bytes(&queue.mem).unwrap().as_ref(), b"headbody");
    queue.complete(recv, reply);
    queue.drain();
}

/// Fill a segment in place and record how much was written.
fn fill_segment(queue: &mut Queue, chain: &mut SendChain, index: usize, data: &[u8]) {
    let (addr, capacity) = chain.segment(index).unwrap();
    assert!(data.len() <= capacity as usize);
    queue.mem.write(addr, data).unwrap();
    chain.with_seg(index, data.len()).unwrap();
}

#[test]
fn test_chain_payload_segment_writer_serializes_directly() {
    let mut queue = make_queue(16);
    let builder = queue.chain().readable(4).readable(4);
    let mut se = queue.build(builder);
    fill_segment(&mut queue, &mut se, 0, b"head");
    fill_segment(&mut queue, &mut se, 1, b"body");

    queue.submit(se);
    let (recv, reply) = queue.receive();
    let segments = recv.to_segments(&queue.mem).unwrap();
    assert_eq!(segments.segment_count(), 2);
    assert_eq!(segments.to_bytes().as_ref(), b"headbody");
    queue.complete(recv, reply);
    queue.drain();
}

#[test]
fn test_chain_payload_segment_write_copies_directly() {
    let mut queue = make_queue(16);
    let builder = queue.chain().readable(4).readable(4);
    let mut se = queue.build(builder);
    se.write_seg(&mut queue.mem, 0, b"head").unwrap();
    se.write_seg(&mut queue.mem, 1, b"body").unwrap();

    queue.submit(se);
    let (recv, reply) = queue.receive();
    let segments = recv.to_segments(&queue.mem).unwrap();
    assert_eq!(segments.segment_count(), 2);
    assert_eq!(segments.to_bytes().as_ref(), b"headbody");
    queue.complete(recv, reply);
    queue.drain();
}

#[test]
fn test_chain_multi_writable_used_returns_segments() {
    let mut queue = Queue::new(16, 6, 64);
    let builder = queue.chain().writable(5).writable(6);
    let token = queue.send(builder, b"");

    let (recv, reply) = queue.receive();
    let ReplyChain::Writable(mut wc) = reply else {
        panic!("expected writable reply");
    };
    assert_eq!(wc.capacity(), 12);

    wc.write_all(&mut queue.mem, b"hello world").unwrap();
    queue.complete(recv, ReplyChain::Writable(wc));

    let used = queue.poll().unwrap().unwrap();
    assert_eq!(used.token(), token);
    let segments = used.segments().unwrap();
    assert_eq!(segments.segment_count(), 2);
    assert_eq!(segments.as_slice()[0].as_ref(), b"hello ");
    assert_eq!(segments.as_slice()[1].as_ref(), b"world");
    assert_eq!(segments.to_bytes().as_ref(), b"hello world");
}

#[test]
fn test_chain_multi_writable_short_used_truncates_last_segment() {
    let mut queue = Queue::new(16, 6, 64);
    let builder = queue.chain().writable(5).writable(6);
    queue.send(builder, b"");
    queue.answer(b"hello wo");

    let used = queue.poll().unwrap().unwrap();
    let segments = used.segments().unwrap();
    assert_eq!(segments.segment_count(), 2);
    assert_eq!(segments.as_slice()[0].as_ref(), b"hello ");
    assert_eq!(segments.as_slice()[1].as_ref(), b"wo");
    assert_eq!(segments.to_bytes().as_ref(), b"hello wo");
}

#[test]
fn test_chain_multi_writable_zero_used_returns_empty_segments() {
    let mut queue = make_queue(16);
    let builder = queue.chain().writable(5).writable(6);
    queue.send(builder, b"");

    let (recv, reply) = queue.receive();
    queue.complete(recv, reply);

    let used = queue.poll().unwrap().unwrap();
    let segments = used.segments().unwrap();
    assert_eq!(segments.segment_count(), 0);
    assert!(segments.is_empty());
    assert!(segments.to_bytes().is_empty());
}

#[test]
fn test_chain_readable_only_build() {
    let mut queue = make_queue(16);
    let builder = queue.chain().readable(32);
    let se = queue.build(builder);
    assert_eq!(se.capacity(), 32);
}

#[test]
fn test_chain_writable_only_build() {
    let mut queue = make_queue(16);
    let builder = queue.chain().writable(64);
    let se = queue.build(builder);
    assert_eq!(se.capacity(), 0);
}

#[test]
fn test_chain_empty_build_fails() {
    let mut queue = make_queue(16);
    let builder = queue.chain();
    let result = builder.build(&mut queue.producer.pool);
    assert!(matches!(result, Err(VirtqError::InvalidState)));
}

fn check_two_writes() {
    let mut queue = make_queue(16);
    let builder = queue.chain().readable(64).writable(128);
    let mut se = queue.build(builder);

    se.write_all(&mut queue.mem, b"hello").unwrap();
    se.write_all(&mut queue.mem, b" world").unwrap();
    assert_eq!(se.written(), 11);
    assert_eq!(se.remaining(), 53);
    let tok = queue.submit(se);

    let (recv, reply) = queue.receive();
    assert_eq!(recv.token(), tok);
    assert_eq!(recv.to_bytes(&queue.mem).unwrap().as_ref(), b"hello world");
    queue.complete(recv, reply);
    queue.drain();
}

#[test]
fn test_send_chain_write_all_and_submit() {
    check_two_writes();
}

#[test]
fn test_send_payload_write_all_fluent() {
    check_two_writes();
}

#[test]
fn test_send_payload_partial_write() {
    let mut queue = make_queue(16);
    let builder = queue.chain().readable(8);
    let mut se = queue.build(builder);
    let written = se.write(&mut queue.mem, b"hello world").unwrap();
    assert_eq!(written, 8);
    assert_eq!(se.remaining(), 0);

    queue.submit(se);
    let (recv, reply) = queue.receive();
    assert_eq!(recv.to_bytes(&queue.mem).unwrap().as_ref(), b"hello wo");
    queue.complete(recv, reply);
    queue.drain();
}

fn check_segment_writer() {
    let mut queue = make_queue(16);
    let builder = queue.chain().readable(64).writable(128);
    let mut se = queue.build(builder);
    assert_eq!(se.segment(0).unwrap().1, 64);
    fill_segment(&mut queue, &mut se, 0, b"hello");
    queue.submit(se);

    let (recv, reply) = queue.receive();
    assert_eq!(recv.to_bytes(&queue.mem).unwrap().as_ref(), b"hello");
    queue.complete(recv, reply);
    queue.drain();
}

#[test]
fn test_send_payload_write_with_serializes_directly() {
    check_segment_writer();
}

#[test]
fn test_send_chain_single_segment_writer_serializes_directly() {
    check_segment_writer();
}

#[test]
fn test_send_chain_single_segment_writer_rejects_multi_segment() {
    let mut queue = make_queue(16);
    let builder = queue.chain().readable(4).readable(4);
    let mut se = queue.build(builder);
    assert!(matches!(
        se.with_seg(2, 0),
        Err(VirtqError::NoPayloadSegment)
    ));
}

#[test]
fn test_send_chain_single_segment_writer_rejects_auto_split_chain() {
    let mut queue = Queue::tiered(16, 4);
    let builder = queue.chain().readable(8);
    let mut se = queue.build(builder);
    assert_eq!(se.rd_desc_count(), 2);
    assert!(matches!(
        se.with_seg(2, 0),
        Err(VirtqError::NoPayloadSegment)
    ));
}

#[test]
fn test_send_payload_segment_set_written_too_large() {
    let mut queue = make_queue(16);
    let builder = queue.chain().readable(32).writable(64);
    let mut se = queue.build(builder);
    let err = se.with_seg(0, 64).err().unwrap();
    assert!(matches!(
        err,
        VirtqError::PayloadTooLarge {
            recv: 64,
            limit: 32
        }
    ));
}

#[test]
fn test_send_chain_write_too_large() {
    let mut queue = make_queue(16);
    let builder = queue.chain().readable(4);
    let mut se = queue.build(builder);
    let err = se.write_all(&mut queue.mem, b"too long").err().unwrap();
    assert!(matches!(
        err,
        VirtqError::PayloadTooLarge { recv: 8, limit: 4 }
    ));
}

#[test]
fn test_writeonly_has_no_readable_buffer() {
    let mut queue = make_queue(16);
    let builder = queue.chain().writable(32);
    let mut se = queue.build(builder);
    let err = se.write_all(&mut queue.mem, b"data").err().unwrap();
    assert!(matches!(err, VirtqError::NoPayloadSegment));
}

#[test]
fn test_drop_chain_builder_deallocs() {
    let mut queue = make_queue(16);

    {
        let _builder = queue.chain().readable(64).writable(128);
        // dropped without build
    }
    assert_eq!(queue.producer.pool.num_live(), 0);

    // Ring should still be fully usable
    let builder = queue.chain().readable(64).writable(128);
    let tok = queue.send(builder, b"");
    assert!(tok.id < 16);

    queue.reset();
}

#[test]
fn test_drop_send_chain_deallocs() {
    let mut queue = make_queue(16);

    let builder = queue.chain().readable(64).writable(128);
    let se = queue.build(builder);
    // given back without submit
    se.release(&mut queue.producer.pool).unwrap();
    assert_eq!(queue.producer.pool.num_live(), 0);

    // Ring should still be fully usable
    let builder = queue.chain().readable(64).writable(128);
    let tok = queue.send(builder, b"");
    assert!(tok.id < 16);

    queue.reset();
}

#[test]
fn test_submit_notifies() {
    let mut queue = make_queue(16);
    let builder = queue.chain().readable(64).writable(128);
    queue.send(builder, b"hello");

    assert!(queue.producer.notifier.count > 0);
    queue.reset();
}

#[test]
fn test_submit_read_only_notifies_by_default() {
    let mut queue = make_queue(16);
    let builder = queue.chain().readable(64);
    queue.send(builder, b"fire-and-forget");

    assert!(queue.producer.notifier.count > 0);
    queue.reset();
}

#[test]
fn test_submit_write_only_notifies_by_default() {
    let mut queue = make_queue(16);
    let builder = queue.chain().writable(128);
    queue.send(builder, b"");

    assert!(queue.producer.notifier.count > 0);
    queue.reset();
}

#[test]
fn test_batch_notifies_once_on_finish() {
    let mut queue = make_queue(16);
    let mut batch = queue.producer.batch();

    for data in [&b"first"[..], b"second"] {
        let builder = queue.chain().readable(64);
        let mut chain = queue.build(builder);
        chain.write_all(&mut queue.mem, data).unwrap();
        batch
            .submit(&mut queue.producer, &mut queue.mem, chain)
            .unwrap();
    }

    assert_eq!(queue.producer.notifier.count, 0);
    assert!(batch.finish(&mut queue.producer, &queue.mem).unwrap());
    assert_eq!(queue.producer.notifier.count, 1);

    let (recv, reply) = queue.receive();
    assert_eq!(recv.to_bytes(&queue.mem).unwrap().as_ref(), b"first");
    queue.complete(recv, reply);

    let (recv, reply) = queue.receive();
    assert_eq!(recv.to_bytes(&queue.mem).unwrap().as_ref(), b"second");
    queue.complete(recv, reply);
    queue.drain();
}

#[test]
fn test_batch_finish_notifies_from_batch_start_cursor() {
    let mut queue = make_queue(16);

    let cursor = queue.consumer.avail_cursor();
    queue
        .consumer
        .set_avail_suppression(&mut queue.mem, SuppressionKind::Descriptor(cursor))
        .unwrap();

    let mut batch = queue.producer.batch();

    let builder = queue.chain().readable(64);
    let mut first = queue.build(builder);
    first.write_all(&mut queue.mem, b"first").unwrap();
    batch
        .submit(&mut queue.producer, &mut queue.mem, first)
        .unwrap();
    assert_eq!(queue.producer.notifier.count, 0);

    let builder = queue.chain().readable(64).writable(64);
    let mut second = queue.build(builder);
    second.write_all(&mut queue.mem, b"second").unwrap();
    batch
        .submit(&mut queue.producer, &mut queue.mem, second)
        .unwrap();

    assert!(batch.finish(&mut queue.producer, &queue.mem).unwrap());

    assert_eq!(queue.producer.notifier.count, 1);
    queue.reset();
}

#[test]
fn test_empty_batch_finish_does_not_notify() {
    let mut queue = make_queue(16);
    let batch = queue.producer.batch();
    assert!(!batch.finish(&mut queue.producer, &queue.mem).unwrap());
    assert_eq!(queue.producer.notifier.count, 0);
}

#[test]
fn test_batch_can_finish_without_notification() {
    let mut queue = make_queue(16);
    let mut batch = queue.producer.batch();
    let builder = queue.chain().readable(4);
    let mut chain = queue.build(builder);
    chain.write_all(&mut queue.mem, b"data").unwrap();
    batch
        .submit(&mut queue.producer, &mut queue.mem, chain)
        .unwrap();
    batch.finish_without_notify();

    assert_eq!(queue.producer.notifier.count, 0);

    let (recv, reply) = queue.receive();
    assert_eq!(recv.to_bytes(&queue.mem).unwrap().as_ref(), b"data");

    queue.complete(recv, reply);
    queue.drain();
}

#[test]
fn test_write_only_round_trip() {
    let mut queue = make_queue(16);
    let builder = queue.chain().writable(32);
    let token = queue.send(builder, b"");

    let (recv, reply) = queue.receive();
    assert_eq!(recv.token(), token);
    assert!(recv.to_bytes(&queue.mem).unwrap().is_empty());

    if let ReplyChain::Writable(mut wc) = reply {
        wc.write_all(&mut queue.mem, b"filled-by-consumer").unwrap();
        queue.complete(recv, ReplyChain::Writable(wc));
    } else {
        panic!("expected Writable");
    }

    let used = queue.poll().unwrap().unwrap();
    assert_eq!(used.token(), token);
    assert_eq!(used.to_bytes().unwrap().len(), b"filled-by-consumer".len());
    assert_eq!(used.to_bytes().unwrap().as_ref(), b"filled-by-consumer");
}

#[test]
fn test_read_only_round_trip() {
    let mut queue = make_queue(16);
    let builder = queue.chain().readable(32);
    let token = queue.send(builder, b"fire-and-forget");

    let (recv, reply) = queue.receive();
    assert_eq!(recv.token(), token);
    assert_eq!(
        recv.to_bytes(&queue.mem).unwrap().as_ref(),
        b"fire-and-forget"
    );
    assert!(matches!(reply, ReplyChain::Ack(_)));
    queue.complete(recv, reply);

    let used = queue.poll().unwrap().unwrap();
    assert!(matches!(used, UsedChain::Ack(t) if t == token));
}

#[test]
fn producer_test_readwrite_round_trip() {
    let mut queue = make_queue(16);
    let builder = queue.chain().readable(64).writable(128);
    let token = queue.send(builder, b"request data");

    let (recv, reply) = queue.receive();
    assert_eq!(recv.to_bytes(&queue.mem).unwrap().as_ref(), b"request data");
    if let ReplyChain::Writable(mut wc) = reply {
        wc.write_all(&mut queue.mem, b"response data").unwrap();
        queue.complete(recv, ReplyChain::Writable(wc));
    } else {
        panic!("expected Writable");
    }

    let used = queue.poll().unwrap().unwrap();
    assert_eq!(used.token(), token);
    assert_eq!(used.to_bytes().unwrap().as_ref(), b"response data");
}

#[test]
fn test_poll_used_requires_owned_mapping() {
    let mut queue = Queue::new(16, 128, 0x8000 / 128);
    queue.mem.maps_left = Some(0);

    let builder = queue.chain().readable(64).writable(128);
    queue.send(builder, b"request data");
    queue.answer(b"response data");

    assert!(matches!(queue.poll(), Err(VirtqError::MemoryReadError)));
    assert_eq!(queue.producer.pool.num_live(), 0);
}

#[test]
fn test_villain_used_len_exceeding_writable_capacity_is_rejected_and_released() {
    let mut queue = Queue::new(16, 4, 64);
    let mut ring_consumer = RingConsumer::new(queue.layout);

    let builder = queue.chain().writable(4);
    queue.send(builder, b"");

    let (id, _) = ring_consumer.poll_available(&queue.mem).unwrap();
    ring_consumer.submit_used(&mut queue.mem, id, 8).unwrap();

    assert!(matches!(queue.poll(), Err(VirtqError::InvalidState)));
    assert_eq!(queue.producer.inner.num_inflight(), 0);

    let builder = queue.chain().writable(4);
    queue.send(builder, b"");
    assert_eq!(queue.producer.inner.num_inflight(), 1);

    queue.reset();
}

#[test]
fn test_villain_used_descriptor_with_invalid_id_is_rejected() {
    let mut queue = make_queue(16);
    let builder = queue.chain().writable(4);
    queue.send(builder, b"");

    let addr = queue.layout.desc_addr(0).unwrap();
    queue.mem.write(addr, &[0; 12]).unwrap();
    queue.mem.write(addr + 12, &16u16.to_le_bytes()).unwrap();
    let flags = DESC_AVAIL | DESC_USED;
    queue.mem.write(addr + 14, &flags.to_le_bytes()).unwrap();

    assert!(matches!(
        queue.poll(),
        Err(VirtqError::RingError(RingError::InvalidState))
    ));
    assert_eq!(queue.producer.inner.num_inflight(), 1);

    queue.reset();
}

#[test]
fn completed_buffers_stay_allocated_until_released() {
    let mut queue = Queue::new(8, 64, 8);
    let builder = queue.chain().readable(192).writable(192);
    queue.send(builder, b"request");
    assert_eq!(queue.producer.pool.num_live(), 6);
    queue.answer(&[0xa5; 70]);

    let used = queue.poll().unwrap().unwrap();
    assert_eq!(queue.producer.pool.num_live(), 2);
    assert_eq!(queue.mem.map_calls, 2);
    let (segments, leases) = used.into_segments().unwrap();
    assert_eq!(segments.to_vec(), [0xa5; 70]);
    release_all(leases, &mut queue.producer.pool);
    assert_eq!(queue.producer.pool.num_live(), 0);
}

#[test]
fn a_chain_reads_once_bytes_are_collected() {
    let mut queue = make_queue(4);
    let builder = queue.chain().writable(8);
    queue.send(builder, b"");
    queue.answer(b"copied");
    let (bytes, leases) = queue.poll().unwrap().unwrap().into_bytes().unwrap();
    release_all(leases, &mut queue.producer.pool);
    assert_eq!(bytes.as_ref(), b"copied");
}

#[test]
fn suppressed_submissions_do_not_notify() {
    let mut queue = make_queue(16);
    queue
        .consumer
        .set_avail_suppression(&mut queue.mem, SuppressionKind::Disable)
        .unwrap();
    let builder = queue.chain().readable(4);
    queue.send(builder, b"data");
    assert_eq!(queue.producer.notifier.count, 0);
    queue.producer.notify_backpressure();
    assert_eq!(queue.producer.notifier.count, 1);
}

#[test]
fn a_chain_without_room_for_its_record_is_refused() {
    let mut queue = make_queue(4);
    let free = queue.producer.pool.num_free();
    let builder = queue.chain().readable(16);
    let chain = queue.build(builder);
    assert_eq!(queue.producer.pool.num_free(), free - 1);

    let refused = queue
        .producer
        .submit_in(&mut queue.mem, chain, Err(VirtqError::Bookkeeping));
    assert!(matches!(refused, Err(VirtqError::Bookkeeping)));
    assert_eq!(queue.producer.pool.num_free(), free);
    assert_eq!(queue.producer.num_inflight(), 0);

    let builder = queue.chain().readable(16);
    let chain = queue.build(builder);
    let room = queue.producer.inflight.try_reserve_one();
    assert!(room.is_ok());
    queue
        .producer
        .submit_in(&mut queue.mem, chain, room)
        .unwrap();
    assert_eq!(queue.producer.num_inflight(), 1);
}

#[test]
fn stores_avoid_buffers_that_are_held() {
    let mut mem = FuzzMem::new(BASE_ADDR, 0x1000);
    let layout = Layout::from_base(BASE_ADDR, 4).unwrap();
    let pool = SlotPool::new(SlotLayout::new(pool_base(4), 64, 2).unwrap()).unwrap();
    let mut producer = VirtqProducer::new(layout, TestNotifier::default(), pool);
    let mut consumer = VirtqConsumer::new(layout, TestNotifier::default());

    let mut held: Option<(Bytes, u8, Vec<BufferLease>)> = None;
    for round in 1..=8u8 {
        let chain = producer.chain().writable(64).build(&mut producer.pool).unwrap();
        producer.submit(&mut mem, chain).unwrap();

        let (recv, reply) = consumer.poll(&mut mem, 64).unwrap().unwrap();
        let ReplyChain::Writable(mut writable) = reply else {
            panic!("expected writable reply");
        };
        writable.write_all(&mut mem, &[round; 64]).unwrap();
        consumer
            .complete(&mut mem, recv, ReplyChain::Writable(writable))
            .unwrap();

        let used = producer.poll(&mut mem).unwrap().unwrap();
        let (data, leases) = used.into_bytes().unwrap();

        // The answer of the round before is held until here.
        if let Some((data, before, leases)) = held.take() {
            assert_eq!(data.as_ref(), [before; 64]);
            for lease in leases {
                assert!(mem.unmap(lease.allocation().addr));
                lease.release(&mut producer.pool).unwrap();
            }
        }
        held = Some((data, round, leases));
        assert!(!mem.is_overlapped());
    }
}

#[test]
fn building_depends_on_room_for_the_records() {
    let mut queue = Queue::new(16, 64, 8);
    let five = |queue: &Queue| queue.chain().readable(64 * 5);

    let refused = five(&queue).build_in(&mut queue.producer.pool, false, true);
    assert!(matches!(refused, Err(VirtqError::Bookkeeping)));
    assert_eq!(queue.producer.pool.num_live(), 0);

    // Spare slots need room of their own.
    let more = five(&queue).writable_avail();
    let refused = more.build_in(&mut queue.producer.pool, true, false);
    assert!(matches!(refused, Err(VirtqError::Bookkeeping)));
    assert_eq!(queue.producer.pool.num_live(), 0);

    let chain = five(&queue)
        .build_in(&mut queue.producer.pool, true, false)
        .unwrap();
    assert_eq!(chain.desc_count(), 5);
    let more = queue.chain().writable_avail();
    let spare = more.build_in(&mut queue.producer.pool, true, true).unwrap();
    assert_eq!(spare.desc_count(), 3);

    let none_left = queue.chain().readable(1);
    let refused = none_left.build_in(&mut queue.producer.pool, true, true);
    assert!(matches!(refused, Err(VirtqError::Backpressure)));
    let nothing = queue.chain();
    let refused = nothing.build_in(&mut queue.producer.pool, true, true);
    assert!(matches!(refused, Err(VirtqError::InvalidState)));
}

#[test]
fn a_reply_without_room_for_its_chunks_is_dropped() {
    let mut queue = Queue::new(8, 64, 8);
    let builder = queue.chain().readable(64).writable(128);
    let chain = queue.build(builder);
    assert_eq!(queue.producer.pool.num_live(), 3);

    let shares = chain.owned.shares(70);
    assert_eq!(shares.lens, [0, 64, 6]);
    assert_eq!(shares.filled, 2);
    assert_eq!(shares.left, 0);
    let outcome =
        chain
            .owned
            .into_segments_in(&mut queue.mem, &mut queue.producer.pool, shares, None);
    assert!(matches!(outcome, Err(VirtqError::Bookkeeping)));
    assert_eq!(queue.producer.pool.num_live(), 0);
    assert_eq!(queue.mem.map_calls, 0);

    // A reply that does not fit is refused first.
    let builder = queue.chain().writable(64);
    let chain = queue.build(builder);
    let shares = chain.owned.shares(70);
    assert_eq!(shares.left, 6);
    let outcome =
        chain
            .owned
            .into_segments_in(&mut queue.mem, &mut queue.producer.pool, shares, None);
    assert!(matches!(outcome, Err(VirtqError::InvalidState)));
    assert_eq!(queue.producer.pool.num_live(), 0);
}

#[test]
fn a_used_chain_is_kept_where_a_place_is_reserved() {
    for reserved in [true, false] {
        let mut queue = make_queue(4);
        let builder = queue.chain().writable(64);
        let token = queue.send(builder, b"");
        queue.answer(b"kept");
        let chain = queue.poll().unwrap().unwrap();
        assert_eq!(queue.producer.pool.num_live(), 1);

        let kept = queue.producer.keep_chain(chain, reserved);
        if reserved {
            assert!(kept.is_ok());
            let chain = queue.poll().unwrap().unwrap();
            assert_eq!(chain.token(), token);
            queue.release(chain);
        } else {
            assert!(matches!(kept, Err(VirtqError::Bookkeeping)));
            assert!(queue.poll().unwrap().is_none());
        }
        assert_eq!(queue.producer.pool.num_live(), 0);
    }
}

#[test]
fn a_batch_publishes_where_the_record_has_room() {
    let mut queue = make_queue(4);
    let mut batch = queue.producer.batch();

    let builder = queue.chain().writable(64);
    let chain = queue.build(builder);
    let refused = batch.submit_in(
        &mut queue.producer,
        &mut queue.mem,
        chain,
        Err(VirtqError::Bookkeeping),
    );
    assert!(matches!(refused, Err(VirtqError::Bookkeeping)));
    assert!(batch.notify_from.is_none());
    assert_eq!(queue.producer.pool.num_live(), 0);

    let builder = queue.chain().writable(64);
    let chain = queue.build(builder);
    queue.producer.inflight.try_reserve_one().unwrap();
    let token = batch
        .submit_in(&mut queue.producer, &mut queue.mem, chain, Ok(()))
        .unwrap();
    assert_eq!(token.seq, 0);
    assert!(batch.notify_from.is_some());
    assert_eq!(queue.producer.inflight.len(), 1);
    batch.finish_without_notify();
    queue.reset();
}
