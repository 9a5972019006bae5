use proteus_lib::premix::PremixBuffer;

#[test]
fn push_pop_preserves_order() {
    let mut buf = PremixBuffer::new();
    buf.push_interleaved(&[0.1_f32, 0.2, 0.3]);
    assert_eq!(buf.pop_chunk(2), vec![0.1, 0.2]);
    assert_eq!(buf.pop_chunk(2), vec![0.3]);
}

#[test]
fn pop_returns_partial_when_fewer_available() {
    let mut buf = PremixBuffer::new();
    buf.push_interleaved(&[1.0_f32]);
    let chunk = buf.pop_chunk(4);
    assert_eq!(chunk, vec![1.0]);
}

#[test]
fn pop_empty_returns_empty() {
    let mut buf = PremixBuffer::<f32>::new();
    assert_eq!(buf.pop_chunk(10), Vec::<f32>::new());
}

#[test]
fn repeated_push_pop_cycles_compact_correctly() {
    let mut buf = PremixBuffer::new();
    for i in 0..20 {
        let base = i as f32 * 4.0;
        buf.push_interleaved(&[base, base + 1.0, base + 2.0, base + 3.0]);
        let chunk = buf.pop_chunk(4);
        assert_eq!(chunk, vec![base, base + 1.0, base + 2.0, base + 3.0]);
    }
    assert!(buf.is_empty());
}

#[test]
fn staggered_push_pop_preserves_ordering() {
    let mut buf = PremixBuffer::new();
    buf.push_interleaved(&[1.0_f32, 2.0, 3.0]);
    buf.push_interleaved(&[4.0, 5.0]);
    assert_eq!(buf.pop_chunk(3), vec![1.0, 2.0, 3.0]);
    buf.push_interleaved(&[6.0, 7.0]);
    assert_eq!(buf.pop_chunk(4), vec![4.0, 5.0, 6.0, 7.0]);
    assert!(buf.is_empty());
}

#[test]
fn pop_chunk_into_fills_caller_slice() {
    let mut buf = PremixBuffer::new();
    buf.push_interleaved(&[10.0_f32, 20.0, 30.0]);
    let mut out = [0.0_f32; 2];
    let written = buf.pop_chunk_into(&mut out);
    assert_eq!(written, 2);
    assert_eq!(out, [10.0, 20.0]);
    assert_eq!(buf.len(), 1);
}

#[test]
fn pop_chunk_into_partial_fill() {
    let mut buf = PremixBuffer::new();
    buf.push_interleaved(&[5.0_f32]);
    let mut out = [0.0_f32; 4];
    let written = buf.pop_chunk_into(&mut out);
    assert_eq!(written, 1);
    assert_eq!(out[0], 5.0);
    assert!(buf.is_empty());
}

#[test]
fn large_cycle_triggers_compaction_without_unbounded_growth() {
    let mut buf = PremixBuffer::new();
    let chunk: Vec<f32> = (0..256).map(|i| i as f32).collect();
    for _ in 0..100 {
        buf.push_interleaved(&chunk);
        let out = buf.pop_chunk(256);
        assert_eq!(out.len(), 256);
        assert_eq!(out[0], 0.0);
        assert_eq!(out[255], 255.0);
    }
    assert!(buf.is_empty());
    assert!(buf.capacity() <= 512, "buffer should not grow unbounded");
}

#[test]
fn backing_store_grows_only_to_queued_length() {
    let mut buf = PremixBuffer::<u8>::default();
    buf.push_interleaved(&[1, 2, 3, 4]);
    assert_eq!(buf.capacity(), 4);
    assert_eq!(buf.pop_chunk(1), vec![1]);
    buf.push_interleaved(&[5]);
    assert_eq!(buf.capacity(), 4);
    buf.push_interleaved(&[6, 7]);
    assert_eq!(buf.capacity(), 6);
    assert_eq!(buf.pop_chunk(10), vec![2, 3, 4, 5, 6, 7]);
}
