//! The packed ring and its canonical images.

use hyperlight::fuzz::malformed::{
    fuzz_consumer, make_ring as make_fuzz_ring, mutate_memory, normalize_queue_size, parse_case,
    run_case, Corpus, FuzzCase, FuzzDesc, DESC_SIZE, HEADER_SIZE, PAYLOAD_SIZE,
};
use hyperlight::fuzz::memory::FuzzMem;
use hyperlight::fuzz::roundtrip::{parse_round_trip, run_round_trip, run_round_trip_in};
use hyperlight::fuzz::scenario::{run_scenario, Op, Scenario};
use hyperlight::virtq::desc::{
    DESC_AVAIL, DESC_INDIRECT, DESC_NEXT, DESC_USED, DESC_WRITE, EVENT_ENABLE,
};
use hyperlight::virtq::{
    validate_canon_image, Allocation, BufferChain, BufferChainBuilder, BufferElement, BufferMap,
    CanonChain, DescError, Descriptor, EventSuppression, ImageError, Layout, MemOps, RingConsumer,
    RingError, RingProducer, VirtqError,
};
use quickcheck::{Arbitrary, Gen, QuickCheck};

const BASE_ADDR: u64 = 0x1000;

struct Ring {
    mem: FuzzMem,
    layout: Layout,
    len: u16,
}

fn make_ring(len: u16) -> Ring {
    Ring {
        mem: FuzzMem::new(BASE_ADDR, Layout::query_size(len as usize)),
        layout: Layout::from_base(BASE_ADDR, len).unwrap(),
        len,
    }
}

fn read_bytes<const N: usize>(mem: &FuzzMem, addr: u64) -> [u8; N] {
    let mut bytes = [0; N];
    mem.read(addr, &mut bytes).unwrap();
    bytes
}

fn read_desc(mem: &FuzzMem, addr: u64) -> Descriptor {
    Descriptor::new(
        u64::from_le_bytes(read_bytes(mem, addr)),
        u32::from_le_bytes(read_bytes(mem, addr + 8)),
        u16::from_le_bytes(read_bytes(mem, addr + 12)),
        u16::from_le_bytes(read_bytes(mem, addr + 14)),
    )
}

impl Ring {
    fn producer(&self) -> RingProducer {
        RingProducer::new(self.layout)
    }

    fn consumer(&self) -> RingConsumer {
        RingConsumer::new(self.layout)
    }

    fn read_desc(&self, index: u16) -> Descriptor {
        read_desc(&self.mem, self.layout.desc_addr(index).unwrap())
    }

    fn write_desc(&mut self, index: u16, desc: Descriptor) {
        let addr = self.layout.desc_addr(index).unwrap();
        let mut bytes = Vec::new();
        bytes.extend_from_slice(&desc.addr.to_le_bytes());
        bytes.extend_from_slice(&desc.len.to_le_bytes());
        bytes.extend_from_slice(&desc.id.to_le_bytes());
        bytes.extend_from_slice(&desc.flags.to_le_bytes());
        self.mem.write(addr, &bytes).unwrap();
    }

    fn read_event(&self, addr: u64) -> EventSuppression {
        EventSuppression::new(
            u16::from_le_bytes(read_bytes(&self.mem, addr)),
            u16::from_le_bytes(read_bytes(&self.mem, addr + 2)),
        )
    }

    fn validate_all(&self, avail_descs: usize) -> Result<Vec<CanonChain>, ImageError> {
        validate_canon_image(&self.mem, self.layout, avail_descs, |_, _| true)
    }

    /// Validate a ring that is not canonical.
    fn image_error(&self, avail_descs: usize) -> ImageError {
        match self.validate_all(avail_descs) {
            Ok(_) => panic!("the image is canonical"),
            Err(error) => error,
        }
    }
}

fn writable_chain(base: u64, lengths: &[u32]) -> BufferChain {
    let mut builder = BufferChainBuilder::new();
    let mut addr = base;
    for &len in lengths {
        builder = builder.writable(addr, len);
        addr += len as u64;
    }
    builder.build().unwrap()
}

#[test]
fn canon_reset_normalizes_empty_image() {
    let mut ring = make_ring(8);
    let mut producer = ring.producer();
    let mut consumer = ring.consumer();

    producer.submit_one(&mut ring.mem, 0x1000, 64, true).unwrap();
    producer
        .enable_used_notifications_desc(&mut ring.mem, 3, false)
        .unwrap();
    consumer
        .enable_avail_notifications_desc(&mut ring.mem, 5, false)
        .unwrap();

    producer.reset(&mut ring.mem).unwrap();
    consumer.reset(&mut ring.mem).unwrap();

    assert!(matches!(ring.validate_all(0), Ok(chains) if chains.is_empty()));
    assert_eq!(
        ring.read_event(ring.layout.drv_evt_addr()),
        EventSuppression::new(0, EVENT_ENABLE)
    );
    assert_eq!(
        ring.read_event(ring.layout.dev_evt_addr()),
        EventSuppression::new(0, EVENT_ENABLE)
    );
    for index in 0..ring.len {
        assert_eq!(ring.read_desc(index), Descriptor::zeroed());
    }
}

#[test]
fn canon_multi_desc_refill_is_visible_to_fresh_consumer() {
    let mut ring = make_ring(8);
    let mut producer = ring.producer();
    let mut consumer = ring.consumer();

    producer.reset(&mut ring.mem).unwrap();
    consumer.reset(&mut ring.mem).unwrap();

    let chains = [
        writable_chain(0x1000, &[64, 128, 256]),
        writable_chain(0x2000, &[512, 1024]),
        writable_chain(0x4000, &[64, 64, 64]),
    ];
    let mut expected = Vec::new();
    for chain in &chains {
        let id = producer.submit_available(&mut ring.mem, chain).unwrap();
        expected.push((id, chain.len()));
    }

    assert_eq!(producer.num_free(), 0);
    assert_eq!(producer.avail_cursor().head(), 0);
    assert!(!producer.avail_cursor().wrap());

    let image = validate_canon_image(
        &ring.mem,
        ring.layout,
        ring.len as usize,
        |_, elem: BufferElement| {
            elem.writable
                && elem.len > 0
                && elem
                    .addr
                    .checked_add(elem.len as u64)
                    .is_some_and(|end| end <= 0x5000)
        },
    );
    let image = match image {
        Ok(image) => image,
        Err(_) => panic!("the image is not canonical"),
    };

    assert_eq!(image.len(), expected.len());
    for (validated, (id, len)) in image.iter().zip(&expected) {
        assert_eq!(validated.id(), *id);
        assert_eq!(validated.buffers().len(), *len);
        assert!(validated.buffers().elems().iter().all(|elem| elem.writable));
        assert_eq!(producer.id_num[*id as usize] as usize, *len);
    }

    let mut fresh = ring.consumer();
    for (expected_id, expected_len) in expected {
        let (id, chain) = fresh.poll_available(&ring.mem).unwrap();
        assert_eq!(id, expected_id);
        assert_eq!(chain.len(), expected_len);
    }
    assert!(matches!(
        fresh.poll_available(&ring.mem),
        Err(RingError::WouldBlock)
    ));
}

#[test]
fn canon_image_rejects_invalid_ids() {
    let mut duplicate_ring = make_ring(4);
    let mut producer = duplicate_ring.producer();
    let mem = &mut duplicate_ring.mem;
    producer.submit_one(mem, 0x1000, 64, true).unwrap();
    producer.submit_one(mem, 0x2000, 64, true).unwrap();

    let head_id = duplicate_ring.read_desc(0).id;
    let mut duplicate = duplicate_ring.read_desc(1);
    duplicate.id = head_id;
    duplicate_ring.write_desc(1, duplicate);

    assert!(matches!(
        duplicate_ring.image_error(2),
        ImageError::Desc {
            index: 1,
            reason: DescError::DuplicateId,
        }
    ));

    let mut mismatch_ring = make_ring(4);
    let mut producer = mismatch_ring.producer();
    producer
        .submit_available(&mut mismatch_ring.mem, &writable_chain(0x3000, &[64, 64]))
        .unwrap();

    let mut tail = mismatch_ring.read_desc(1);
    tail.id = tail.id.wrapping_sub(1);
    mismatch_ring.write_desc(1, tail);

    assert!(matches!(
        mismatch_ring.image_error(2),
        ImageError::Desc {
            index: 1,
            reason: DescError::IdMismatch,
        }
    ));

    let mut range_ring = make_ring(4);
    let mut producer = range_ring.producer();
    producer
        .submit_one(&mut range_ring.mem, 0x4000, 64, true)
        .unwrap();

    let mut out_of_range = range_ring.read_desc(0);
    out_of_range.id = range_ring.len;
    range_ring.write_desc(0, out_of_range);

    assert!(matches!(
        range_ring.image_error(1),
        ImageError::Desc {
            index: 0,
            reason: DescError::IdOutOfRange,
        }
    ));
}

#[test]
fn canon_image_rejects_invalid_flags_and_wrap_state() {
    let mut unknown_ring = make_ring(4);
    let mut producer = unknown_ring.producer();
    producer
        .submit_one(&mut unknown_ring.mem, 0x1000, 64, true)
        .unwrap();

    let mut unknown = unknown_ring.read_desc(0);
    unknown.flags |= 1 << 3;
    unknown_ring.write_desc(0, unknown);

    assert!(matches!(
        unknown_ring.image_error(1),
        ImageError::Desc {
            index: 0,
            reason: DescError::UnknownFlags,
        }
    ));

    let mut used_ring = make_ring(4);
    let mut producer = used_ring.producer();
    producer
        .submit_one(&mut used_ring.mem, 0x2000, 64, true)
        .unwrap();

    let mut used = used_ring.read_desc(0);
    used.flags |= DESC_AVAIL | DESC_USED;
    used_ring.write_desc(0, used);

    assert!(matches!(
        used_ring.image_error(1),
        ImageError::Desc {
            index: 0,
            reason: DescError::NotAvailable,
        }
    ));

    let mut indirect_ring = make_ring(4);
    let mut producer = indirect_ring.producer();
    producer
        .submit_one(&mut indirect_ring.mem, 0x3000, 64, true)
        .unwrap();

    let mut indirect = indirect_ring.read_desc(0);
    indirect.flags |= DESC_INDIRECT;
    indirect_ring.write_desc(0, indirect);

    assert!(matches!(
        indirect_ring.image_error(1),
        ImageError::Desc {
            index: 0,
            reason: DescError::Indirect,
        }
    ));
}

#[test]
fn canon_image_rejects_malformed_chain_and_unused_desc() {
    let mut chain_ring = make_ring(4);
    let mut producer = chain_ring.producer();
    producer
        .submit_available(&mut chain_ring.mem, &writable_chain(0x1000, &[64, 64]))
        .unwrap();

    let mut tail = chain_ring.read_desc(1);
    tail.flags |= DESC_NEXT;
    chain_ring.write_desc(1, tail);

    assert!(matches!(
        chain_ring.image_error(2),
        ImageError::Desc {
            index: 1,
            reason: DescError::ChainContinues,
        }
    ));

    let mut unused_ring = make_ring(4);
    let mut producer = unused_ring.producer();
    producer
        .submit_one(&mut unused_ring.mem, 0x2000, 64, true)
        .unwrap();
    unused_ring.write_desc(3, Descriptor::new(0x3000, 64, 0, 0));

    assert!(matches!(
        unused_ring.image_error(1),
        ImageError::Desc {
            index: 3,
            reason: DescError::ExpectedZero,
        }
    ));

    let mut direction_ring = make_ring(4);
    let mut producer = direction_ring.producer();
    producer
        .submit_available(&mut direction_ring.mem, &writable_chain(0x4000, &[64, 64]))
        .unwrap();

    let mut readable_tail = direction_ring.read_desc(1);
    readable_tail.flags &= !DESC_WRITE;
    direction_ring.write_desc(1, readable_tail);

    assert!(matches!(
        direction_ring.image_error(2),
        ImageError::Desc {
            index: 1,
            reason: DescError::ReadableAfterWritable,
        }
    ));
}

#[test]
fn canon_image_rejects_noncanon_evt_and_buffer_bounds() {
    let mut evt_ring = make_ring(4);
    let addr = evt_ring.layout.drv_evt_addr();
    evt_ring.mem.write(addr, &[1, 0, 0, 0]).unwrap();

    match evt_ring.image_error(0) {
        ImageError::Event { addr } => {
            let expected = evt_ring.layout.drv_evt_addr();
            assert_eq!(addr, expected);
        }
        other => unreachable!("unexpected result: {other:?}"),
    }

    let mut bounds = make_ring(4);
    let mut producer = bounds.producer();
    producer
        .submit_one(&mut bounds.mem, u64::MAX - 15, 32, true)
        .unwrap();

    let res = validate_canon_image(
        &bounds.mem,
        bounds.layout,
        1,
        |_, element: BufferElement| {
            element
                .addr
                .checked_add(element.len as u64)
                .is_some_and(|end| end <= 0x8000)
        },
    );

    match res {
        Err(ImageError::Buffer { index, addr, len }) => {
            assert_eq!(index, 0);
            assert_eq!(addr, u64::MAX - 15);
            assert_eq!(len, 32);
        }
        _ => unreachable!("unexpected result"),
    }
}

#[test]
fn canon_image_rejects_avail_count_over_capacity() {
    let ring = make_ring(4);
    assert!(matches!(
        ring.image_error(5),
        ImageError::DescCount {
            available: 5,
            capacity: 4,
        }
    ));
}

#[test]
fn a_published_chain_is_taken_and_taken_back() {
    let mut ring = make_ring(4);
    let mut producer = ring.producer();
    let mut consumer = ring.consumer();
    for round in 0..6u32 {
        let chain = BufferChainBuilder::new()
            .readable(0x8000, 10 + round)
            .writable(0x9000, 20)
            .build()
            .unwrap();
        let id = producer.submit_available(&mut ring.mem, &chain).unwrap();
        let (taken, elems) = consumer.poll_available(&ring.mem).unwrap();
        assert_eq!(taken, id);
        assert_eq!(elems.elems(), chain.elems());
        assert_eq!(elems.readables().len(), 1);
        assert_eq!(elems.writables()[0].len, 20);
        consumer.submit_used(&mut ring.mem, id, round).unwrap();
        let used = producer.poll_used(&ring.mem).unwrap();
        assert_eq!((used.id, used.len), (id, round));
    }
    assert!(matches!(
        producer.poll_used(&ring.mem),
        Err(RingError::WouldBlock)
    ));
}

#[test]
fn a_chain_is_marked_used_once() {
    let mut ring = make_ring(4);
    let mut producer = ring.producer();
    let mut consumer = ring.consumer();
    let id = producer.submit_one(&mut ring.mem, 0x8000, 8, true).unwrap();
    consumer.poll_available(&ring.mem).unwrap();
    assert_eq!(
        consumer.submit_used_with_notify(&mut ring.mem, id, 8),
        Ok(true)
    );
    assert_eq!(
        consumer.submit_used(&mut ring.mem, id, 8),
        Err(RingError::InvalidState)
    );
}

const MAX_RING: usize = 64;
const MAX_OPS: usize = 128;
const MAX_CHAIN_LEN: usize = 8;

fn arbitrary_chain(g: &mut Gen) -> BufferChain {
    let chain_len = usize::arbitrary(g) % MAX_CHAIN_LEN + 1;
    let mut builder = BufferChainBuilder::new();
    for _ in 0..chain_len {
        let (addr, len) = (u64::arbitrary(g), u32::arbitrary(g));
        builder = if bool::arbitrary(g) {
            builder.writable(addr, len)
        } else {
            builder.readable(addr, len)
        };
    }
    builder.build().unwrap()
}

fn arbitrary_op(g: &mut Gen) -> Op {
    match u8::arbitrary(g) % 4 {
        0 => Op::Submit(arbitrary_chain(g)),
        1 => Op::PollAvail(u8::arbitrary(g) % 8 + 1),
        2 => Op::PollUsed(u8::arbitrary(g) % 8 + 1),
        _ => Op::CompleteOne,
    }
}

#[derive(Clone, Debug)]
struct AnyScenario(Scenario);

impl Arbitrary for AnyScenario {
    fn arbitrary(g: &mut Gen) -> Self {
        let table_size = (usize::arbitrary(g) % MAX_RING + 1).next_power_of_two();
        let num_ops = usize::arbitrary(g) % MAX_OPS + 1;
        let ops = (0..num_ops).map(|_| arbitrary_op(g)).collect();
        AnyScenario(Scenario { table_size, ops })
    }
}

fn scenario_holds(s: AnyScenario) -> bool {
    match run_scenario(&s.0) {
        Some(orders) => orders.drv_order.starts_with(&orders.dev_order),
        None => false,
    }
}

#[test]
fn prop_interleaved_with_order_verification() {
    QuickCheck::new()
        .tests(100)
        .quickcheck(scenario_holds as fn(AnyScenario) -> bool);
}

#[test]
fn turns_pass_chains_on_in_order() {
    let chain = |count: usize| {
        let mut builder = BufferChainBuilder::new();
        for i in 0..count {
            builder = builder.readable(0x4000 + 64 * i as u64, 64);
        }
        Op::Submit(builder.build().unwrap())
    };
    let ops = vec![
        chain(2),
        chain(1),
        // No room for two more.
        chain(2),
        chain(1),
        Op::PollAvail(2),
        Op::CompleteOne,
        Op::CompleteOne,
        // Nothing is held any more.
        Op::CompleteOne,
        Op::PollUsed(1),
        chain(1),
        Op::PollAvail(8),
    ];
    let orders = run_scenario(&Scenario { table_size: 4, ops }).unwrap();
    // The first chain has identifier 3; what the device took last it marks first.
    assert_eq!(orders.dev_order, vec![2, 3]);
    assert_eq!(orders.drv_order, vec![2, 3, 2, 1]);
}

fn input(addr_offset: i32, len: u32, flags: u16) -> Vec<u8> {
    let mut data = vec![0; HEADER_SIZE + DESC_SIZE];
    data[..2].copy_from_slice(&1u16.to_le_bytes());
    data[2..4].copy_from_slice(&1u16.to_le_bytes());
    data[12] = 2;
    data[13] = 15;
    data[16..20].copy_from_slice(&addr_offset.to_le_bytes());
    data[20..24].copy_from_slice(&len.to_le_bytes());
    data[26..28].copy_from_slice(&flags.to_le_bytes());
    data
}

#[test]
fn descriptor_addresses_include_ring_and_wrapping_offsets() {
    let payload_base = BASE_ADDR + Layout::query_size(1) as u64;
    for (offset, expected) in [
        (0, payload_base),
        (-1, payload_base - 1),
        (PAYLOAD_SIZE as i32, payload_base + PAYLOAD_SIZE as u64),
        (-(payload_base as i32) - 1, u64::MAX),
    ] {
        let data = input(offset, 16, DESC_AVAIL);
        let (layout, ring) = make_fuzz_ring(&parse_case(&data).unwrap()).unwrap();
        let desc = read_desc(&ring, layout.desc_table_addr());
        assert_eq!(desc.addr, expected);
    }
}

#[test]
fn mutations_respect_separate_memory_regions() {
    let data = input(0, 16, DESC_AVAIL);
    let (_, mut ring) = make_fuzz_ring(&parse_case(&data).unwrap()).unwrap();
    let ring_size = Layout::query_size(1);
    let payload_base = BASE_ADDR + ring_size as u64;
    let mut payload = FuzzMem::new(payload_base, PAYLOAD_SIZE);

    assert!(ring.read(payload_base, &mut [0]).is_err());
    assert!(ring.write(payload_base, &[0]).is_err());
    assert!(payload.read(BASE_ADDR, &mut [0]).is_err());
    assert!(payload.write(BASE_ADDR, &[0]).is_err());
    assert!(ring.read(payload_base - 1, &mut [0; 2]).is_err());
    assert!(payload
        .read(payload_base + PAYLOAD_SIZE as u64 - 1, &mut [0; 2])
        .is_err());

    mutate_memory(&mut ring, &mut payload, ring_size, &[0, 0, 0xa5]).unwrap();
    let offset = (ring_size as u16).to_le_bytes();
    mutate_memory(
        &mut ring,
        &mut payload,
        ring_size,
        &[offset[0], offset[1], 0x5a],
    )
    .unwrap();
    assert_eq!(read_bytes::<1>(&ring, BASE_ADDR), [0xa5]);
    assert_eq!(read_bytes::<1>(&payload, payload_base), [0x5a]);
}

#[test]
fn consumer_errors_and_between_call_mutations_are_accepted() {
    let ring_size = Layout::query_size(1);
    let wrapping_offset = -(BASE_ADDR as i32 + ring_size as i32) - 1;
    for flags in [DESC_AVAIL, DESC_AVAIL | DESC_WRITE] {
        for (offset, len) in [
            (0, 16),
            (-1, 16),
            (PAYLOAD_SIZE as i32 - 1, 16),
            (wrapping_offset, 16),
            (0, u32::MAX),
        ] {
            let mut data = input(offset, len, flags);
            assert!(matches!(run_case(parse_case(&data).unwrap()), Corpus::Keep));
            for (offset, value) in [
                (ring_size as u16, 0xa5),
                (7, 0xff),
                (8, 0),
                (12, 0xff),
                (14, 0),
                (18, 0xff),
            ] {
                data.extend_from_slice(&offset.to_le_bytes());
                data.push(value);
            }
            assert!(matches!(run_case(parse_case(&data).unwrap()), Corpus::Keep));
        }
    }
}

#[test]
fn inputs_are_parsed_up_to_their_limits() {
    assert!(parse_case(&[0; HEADER_SIZE - 1]).is_none());
    assert_eq!(normalize_queue_size(0), 16);
    assert_eq!(normalize_queue_size(3), 16);
    assert_eq!(normalize_queue_size(32), 32);
    assert_eq!(normalize_queue_size(0x8000), 64);

    let mut data = input(-1, 16, DESC_AVAIL);
    data[12] = 200;
    data.extend_from_slice(&[1, 2, 3, 4]);
    let case = parse_case(&data).unwrap();
    assert_eq!(case.queue_size, 1);
    assert_eq!(case.poll_count, 8);
    assert_eq!(case.io_len, 16);
    assert_eq!(case.descs[0].addr_offset, -1);
    assert_eq!(case.mutations, [1, 2, 3, 4]);
    assert!(parse_case(&data[..HEADER_SIZE + DESC_SIZE - 1]).is_none());
}

#[test]
fn fuzz_memory_refuses_misaligned_words_and_maps_buffers() {
    let mut mem = FuzzMem::new(0x1000, 16);
    mem.store_release(0x1002, 0xbeef).unwrap();
    assert_eq!(mem.load_acquire(0x1002), Ok(0xbeef));
    assert_eq!(mem.load_acquire(0x1003), Err(()));
    assert_eq!(mem.store_release(0x100f, 1), Err(()));
    assert_eq!(mem.load_acquire(0xfff), Err(()));
    let view = mem
        .map_buffer(Allocation { addr: 0x1000, len: 8 }, 4)
        .unwrap();
    assert_eq!(view.as_ref(), [0, 0, 0xef, 0xbe]);
    assert!(mem
        .map_buffer(Allocation { addr: 0x100c, len: 8 }, 1)
        .is_err());
}

#[test]
fn fuzz_memory_notices_stores_into_mapped_buffers() {
    let buffer = Allocation { addr: 0x1010, len: 16 };
    let mapped = || {
        let mut mem = FuzzMem::new(0x1000, 64);
        mem.map_buffer(buffer, 4).unwrap();
        mem
    };

    let mut beside = mapped();
    beside.write(0x1000, &[1; 16]).unwrap();
    beside.write(0x1020, &[1; 16]).unwrap();
    beside.write(0x1018, &[]).unwrap();
    beside.store_release(0x100e, 1).unwrap();
    beside.store_release(0x1020, 1).unwrap();
    assert_eq!(beside.write(0x1018, &[1; 64]), Err(()));
    assert!(!beside.is_overlapped());

    for (addr, len) in [(0x100f, 2), (0x1010, 1), (0x101f, 2), (0x1000, 64)] {
        let mut inside = mapped();
        inside.write(addr, &vec![1; len]).unwrap();
        assert!(inside.is_overlapped());
    }

    let mut word = mapped();
    word.store_release(0x101e, 1).unwrap();
    assert!(word.is_overlapped());

    let mut twice = mapped();
    twice.map_buffer(Allocation { addr: 0x1008, len: 9 }, 0).unwrap();
    assert!(twice.is_overlapped());

    let mut given_back = mapped();
    assert!(!given_back.unmap(0x1011));
    assert!(given_back.unmap(0x1010));
    assert!(!given_back.unmap(0x1010));
    given_back.write(0x1010, &[1; 16]).unwrap();
    assert!(!given_back.is_overlapped());
}

#[test]
fn cases_whose_ring_cannot_be_made_are_rejected() {
    let case = |queue_size: usize, descs: usize| FuzzCase {
        queue_size,
        avail_descs: descs,
        driver_event_off_wrap: 0,
        driver_event_flags: 0,
        written_len: 0,
        poll_count: 1,
        io_len: 16,
        descs: vec![FuzzDesc { addr_offset: 0, len: 16, id: 0, flags: DESC_AVAIL }; descs],
        mutations: &[],
    };
    for (queue_size, descs, kept) in [
        (1, 1, true),
        (1, 2, false),
        (0, 0, false),
        (0x8000, 0, true),
        (0x8001, 0, false),
    ] {
        assert_eq!(make_fuzz_ring(&case(queue_size, descs)).is_ok(), kept);
        assert_eq!(fuzz_consumer(&case(queue_size, descs)).is_ok(), kept);
        let corpus = run_case(case(queue_size, descs));
        assert_eq!(matches!(corpus, Corpus::Keep), kept);
    }
}

#[test]
fn requests_and_replies_make_the_round_trip() {
    for (len, split, chunk, extra) in [
        (0u16, 0u16, 0u8, 1u8),
        (1, 1, 0, 0),
        (100, 50, 7, 3),
        (1024, 512, 63, 0),
        (1024, 1024, 255, 0),
        (1024, 512, 200, 200),
        (300, 0, 16, 0),
    ] {
        let mut data = vec![split as u8, (split >> 8) as u8, chunk, extra];
        data.extend((0..len).map(|byte| byte as u8));
        let case = parse_round_trip(&data).unwrap();
        assert_eq!(case.request.len(), split as usize);
        assert_eq!(case.chunk_size, chunk as usize + 1);
        let run = run_round_trip(&case);
        if case.descriptors() > 16 {
            assert!(matches!(run, Err(VirtqError::Backpressure)));
            continue;
        }
        let exchange = run.unwrap();
        assert_eq!(exchange.received, case.request);
        if case.reply_capacity > 0 {
            assert_eq!(exchange.replied.as_deref(), Some(case.response));
        } else {
            assert!(exchange.replied.is_none());
        }
    }
    assert!(parse_round_trip(&[0; 3]).is_none());
    assert!(parse_round_trip(&[0; 4]).is_none());
    assert!(parse_round_trip(&vec![1; 4 + 1025]).is_none());
}

#[test]
fn validation_asks_once_about_each_descriptor() {
    let mut ring = make_ring(8);
    let mut producer = ring.producer();
    for chain in [
        writable_chain(0x1000, &[64, 128]),
        writable_chain(0x2000, &[32, 32]),
    ] {
        producer.submit_available(&mut ring.mem, &chain).unwrap();
    }

    let mut asked = Vec::new();
    let image = validate_canon_image(&ring.mem, ring.layout, 4, |index, elem: BufferElement| {
        asked.push((index, elem.len));
        true
    });
    assert_eq!(image.unwrap().len(), 2);
    assert_eq!(asked, [(0, 64), (1, 128), (2, 32), (3, 32)]);

    // The callback may change its mind: what it answers when it is asked decides.
    let mut left = 2;
    let image = validate_canon_image(&ring.mem, ring.layout, 4, |_, _: BufferElement| {
        left -= 1;
        left >= 0
    });
    assert!(matches!(
        image,
        Err(ImageError::Buffer {
            index: 2,
            addr: 0x2000,
            len: 32
        })
    ));
}

#[test]
fn a_round_trip_needs_room_for_its_record() {
    // A request in one slot and a reply in two.
    let mut data = vec![60, 0, 9, 20];
    data.extend((0..140u16).map(|byte| byte as u8));
    let case = parse_round_trip(&data).unwrap();
    assert_eq!(case.descriptors(), 3);

    let exchange = run_round_trip_in(&case, Ok(())).unwrap();
    assert_eq!(exchange.received, case.request);
    assert_eq!(exchange.replied.as_deref(), Some(case.response));
    for error in [VirtqError::Bookkeeping, VirtqError::InvalidState] {
        let run = run_round_trip_in(&case, Err(error));
        assert_eq!(run.err(), Some(error));
    }
}
