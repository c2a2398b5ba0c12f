use hft_engine::concurrent::SpscRingBuffer;
use hft_engine::generator::{MAX_QUANTITY, MIN_QUANTITY};
use hft_engine::{LatencyRecorder, Order, OrderGenerator, Side};

#[test]
fn ring_buffer_capacity_is_power_of_two_at_least_two() {
    assert_eq!(SpscRingBuffer::<u8>::new(0).capacity(), 2);
    assert_eq!(SpscRingBuffer::<u8>::new(1).capacity(), 2);
    assert_eq!(SpscRingBuffer::<u8>::new(3).capacity(), 4);
    assert_eq!(SpscRingBuffer::<u8>::new(5).capacity(), 8);
    assert_eq!(SpscRingBuffer::<u8>::new(8).capacity(), 8);
    assert_eq!(SpscRingBuffer::<u8>::new(1024).capacity(), 1024);
}

#[test]
fn ring_buffer_holds_one_fewer_than_its_slots() {
    let mut buffer = SpscRingBuffer::new(4);
    assert_eq!(buffer.push('a'), Ok(()));
    assert_eq!(buffer.push('b'), Ok(()));
    assert_eq!(buffer.push('c'), Ok(()));
    assert!(buffer.is_full());
    assert_eq!(buffer.len(), 3);
    assert_eq!(buffer.push('d'), Err('d'));
    assert_eq!(buffer.pop(), Some('a'));
    assert!(!buffer.is_full());
}

#[test]
fn ring_buffer_wraps_around_in_order() {
    let mut buffer = SpscRingBuffer::new(2);
    assert_eq!(buffer.pop(), None);
    for i in 0..10u32 {
        assert_eq!(buffer.push(i), Ok(()));
        assert_eq!(buffer.len(), 1);
        assert_eq!(buffer.push(100 + i), Err(100 + i));
        assert_eq!(buffer.pop(), Some(i));
        assert_eq!(buffer.len(), 0);
    }
    let mut buffer = SpscRingBuffer::new(4);
    for round in 0..5u32 {
        buffer.push(round * 10).unwrap();
        buffer.push(round * 10 + 1).unwrap();
        assert_eq!(buffer.len(), 2);
        assert_eq!(buffer.pop(), Some(round * 10));
        assert_eq!(buffer.pop(), Some(round * 10 + 1));
        assert!(buffer.is_empty());
    }
}

#[test]
fn empty_recorder_reports_zero() {
    let recorder = LatencyRecorder::default();
    assert_eq!(recorder.sample_count(), 0);
    assert_eq!(recorder.p50(), 0);
    assert_eq!(recorder.p99(), 0);
}

#[test]
fn percentiles_sort_unordered_samples() {
    let mut recorder = LatencyRecorder::new();
    for v in [40u128, 10, 30, 20] {
        recorder.record(v);
    }
    // rank round(3 * 0.5) = 2, rank round(3 * 0.99) = 3
    assert_eq!(recorder.p50(), 30);
    assert_eq!(recorder.p99(), 40);
    assert!(recorder.p50() <= recorder.p99());
}

#[test]
fn p99_rank_rounds_half_up() {
    let mut recorder = LatencyRecorder::new();
    for v in (0..51u128).rev() {
        recorder.record(v);
    }
    // 51 samples: rank round(50 * 0.99) = round(49.5) = 50
    assert_eq!(recorder.p99(), 50);
    assert_eq!(recorder.p50(), 25);
    let mut recorder = LatencyRecorder::new();
    for v in 0..200u128 {
        recorder.record(v);
    }
    // rank round(199 * 0.99) = round(197.01) = 197; rank round(99.5) = 100
    assert_eq!(recorder.p99(), 197);
    assert_eq!(recorder.p50(), 100);
}

#[test]
fn generator_steps_ids_timestamps_and_sides() {
    let mut generator = OrderGenerator::new(1_000, 50, 7);
    for i in 0..100u64 {
        let o = generator.next().unwrap();
        assert_eq!(o.id, i + 1);
        assert_eq!(o.timestamp, i);
        assert_eq!(o.side, if i % 2 == 0 { Side::Sell } else { Side::Buy });
        assert!(o.price >= 950 && o.price <= 1_050);
        assert!(o.remaining >= 1 && o.remaining <= 10);
    }
}

#[test]
fn generator_draws_vary() {
    let mut generator = OrderGenerator::new(1_000, 50, 11);
    let orders: Vec<_> = (0..200).map(|_| generator.next().unwrap()).collect();
    assert!(orders.iter().any(|o| o.price != 950));
    assert!(orders.iter().any(|o| o.remaining != 1));
}

#[test]
fn generator_with_zero_spread_and_low_mid() {
    let mut generator = OrderGenerator::new(100, 0, 1);
    for _ in 0..20 {
        assert_eq!(generator.next().unwrap().price, 100);
    }
    let mut generator = OrderGenerator::new(3, 10, 1);
    for _ in 0..50 {
        let o = generator.next().unwrap();
        assert!(o.price <= 20);
    }
}

#[test]
fn generator_is_deterministic_for_a_seed() {
    let mut a = OrderGenerator::new(100, 10, 42);
    let mut b = OrderGenerator::new(100, 10, 42);
    for _ in 0..50 {
        assert_eq!(a.next(), b.next());
    }
}

#[test]
fn generator_builds_orders_from_draws() {
    let mut generator = OrderGenerator::new(100, 10, 1);
    assert_eq!(generator.price_draw_bound(), 21);
    assert_eq!((MIN_QUANTITY, MAX_QUANTITY), (1, 10));
    assert_eq!(generator.order_from_draws(5, 7), Order::new(1, Side::Sell, 95, 7, 0));
    assert_eq!(generator.order_from_draws(20, 10), Order::new(2, Side::Buy, 110, 10, 1));
    let mut low = OrderGenerator::new(3, 10, 1);
    assert_eq!(low.price_draw_bound(), 21);
    assert_eq!(low.order_from_draws(0, 1).price, 0);
}

#[test]
fn percentiles_ignore_recording_order() {
    let mut a = LatencyRecorder::new();
    let mut b = LatencyRecorder::new();
    for v in [5u128, 1, 9, 3, 7, 3] {
        a.record(v);
    }
    for v in [3u128, 3, 9, 7, 1, 5] {
        b.record(v);
    }
    assert_eq!(a.p50(), b.p50());
    assert_eq!(a.p99(), b.p99());
    assert_eq!(a.p50(), 5);
    assert_eq!(a.p99(), 9);
}
