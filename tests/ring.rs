use ring_buffer_example::ring_buffer_seq::{Error, Iov, RingBufSeq, SocketBufIovs, SysErr};

fn ring_at(count: usize, pos: u32) -> RingBufSeq {
    let mut r = RingBufSeq::new(count);
    r.head = pos;
    r.tail = pos;
    r
}

fn slots(n: usize) -> SocketBufIovs {
    SocketBufIovs { iovs: vec![Iov { start: 99, len: 99 }; n], cnt: 7 }
}

#[test]
fn power_of_two_check() {
    assert!(RingBufSeq::is_power_of_two(1));
    assert!(RingBufSeq::is_power_of_two(2));
    assert!(RingBufSeq::is_power_of_two(1024));
    assert!(!RingBufSeq::is_power_of_two(3));
    assert!(!RingBufSeq::is_power_of_two(6));
    assert!(!RingBufSeq::is_power_of_two(1023));
}

#[test]
fn new_ring_is_empty() {
    let r = RingBufSeq::new(2);
    assert_eq!(r.len(), 16);
    assert_eq!(r.available_data_size(), 0);
    assert_eq!(r.available_space(), 16);
    let (raw, n) = r.get_raw_buf();
    assert_eq!(raw.len(), 16);
    assert_eq!(n, 16);
    assert_eq!(r.buf().len(), 16);
}

#[test]
fn overfull_write_then_read() {
    let mut r = RingBufSeq::new(1);
    let w = r.write(&[1, 2, 3, 4, 5, 6, 7, 8, 9, 10]).unwrap();
    assert_eq!(w, (true, 8));
    assert_eq!(r.available_space(), 0);
    let mut out = [0u8; 8];
    let got = r.read(&mut out).unwrap();
    assert_eq!(got, (true, 8));
    assert_eq!(out, [1, 2, 3, 4, 5, 6, 7, 8]);
    assert_eq!(r.available_data_size(), 0);
}

#[test]
fn write_then_read_across_the_end() {
    let mut r = RingBufSeq::new(1);
    let prior = [0u8; 6];
    assert_eq!(r.write(&prior).unwrap(), (true, 6));
    let mut sink = [0u8; 6];
    assert_eq!(r.read(&mut sink).unwrap(), (false, 6));
    assert_eq!(r.write(b"ABCD").unwrap(), (true, 4));
    assert_eq!(&r.buf()[6..8], b"AB");
    assert_eq!(&r.buf()[0..2], b"CD");
    let mut out = [0u8; 4];
    assert_eq!(r.read(&mut out).unwrap(), (false, 4));
    assert_eq!(&out, b"ABCD");
}

#[test]
fn counters_roll_over() {
    let mut r = ring_at(1, 0xFFFF_FFFE);
    assert_eq!(r.available_data_size(), 0);
    assert_eq!(r.write(&[10, 20, 30, 40, 50]).unwrap(), (true, 5));
    assert_eq!(r.tail, 3);
    assert_eq!(r.available_data_size(), 5);
    assert_eq!(r.available_space(), 3);
    let mut out = [0u8; 3];
    assert_eq!(r.read(&mut out).unwrap(), (false, 3));
    assert_eq!(out, [10, 20, 30]);
    assert_eq!(r.head, 1);
    assert_eq!(r.available_data_size(), 2);
    let mut rest = [0u8; 4];
    assert_eq!(r.read(&mut rest).unwrap(), (false, 2));
    assert_eq!(rest, [40, 50, 0, 0]);
    assert_eq!(r.available_data_size(), 0);
}

#[test]
fn produce_consume_roll_over() {
    let mut r = ring_at(1, 0xFFFF_FFF8);
    for _ in 0..4 {
        assert!(r.produce(3));
        assert_eq!(r.available_data_size(), 3);
        assert!(!r.produce(5));
        assert_eq!(r.available_data_size(), 8);
        assert!(r.consume(8));
        assert_eq!(r.available_data_size(), 0);
    }
    assert_eq!(r.head, 0x18);
    assert_eq!(r.tail, 0x18);
}

#[test]
fn read_from_empty() {
    let mut r = RingBufSeq::new(1);
    let mut out = [9u8; 4];
    assert_eq!(r.read(&mut out).unwrap(), (false, 0));
    assert_eq!(out, [9, 9, 9, 9]);
}

#[test]
fn write_to_full() {
    let mut r = RingBufSeq::new(1);
    r.write(&[1; 8]).unwrap();
    assert_eq!(r.write(&[2, 3]).unwrap(), (false, 0));
    assert_eq!(r.available_data_size(), 8);
}

#[test]
fn short_read_keeps_rest() {
    let mut r = RingBufSeq::new(1);
    r.write(&[1, 2, 3]).unwrap();
    let mut out = [0u8; 2];
    assert_eq!(r.read(&mut out).unwrap(), (false, 2));
    assert_eq!(out, [1, 2]);
    assert_eq!(r.write(&[4]).unwrap(), (false, 1));
    let mut more = [0u8; 8];
    assert_eq!(r.read(&mut more).unwrap(), (false, 2));
    assert_eq!(&more[..2], &[3, 4]);
}

#[test]
fn write_full_refuses_what_does_not_fit() {
    let mut r = RingBufSeq::new(1);
    r.write(&[1, 2, 3, 4, 5]).unwrap();
    assert!(matches!(r.write_full(&[6, 7, 8, 9]), Err(Error::QueueFull)));
    assert_eq!(r.available_data_size(), 5);
    assert_eq!(r.write_full(&[6, 7, 8]).unwrap(), (false, 3));
    assert_eq!(r.available_space(), 0);
}

#[test]
fn read_regions() {
    let mut r = ring_at(1, 5);
    assert_eq!(r.get_read_buf(), None);
    assert_eq!(r.get_data_buf(), (0, 0));
    r.write(&[1, 2, 3, 4, 5]).unwrap();
    assert_eq!(r.get_read_buf(), Some((5, 3, true)));
    assert_eq!(r.get_data_buf(), (5, 3));
    assert!(!r.consume(3));
    assert_eq!(r.get_read_buf(), Some((0, 2, false)));
    assert_eq!(r.get_data_buf(), (0, 2));
    assert!(!r.consume(2));
    assert_eq!(r.get_read_buf(), None);
}

#[test]
fn write_regions() {
    let mut r = ring_at(1, 5);
    assert_eq!(r.get_write_buf(), Some((5, 3, true)));
    assert_eq!(r.get_space_buf(), (5, 3));
    r.write(&[1, 2, 3]).unwrap();
    assert_eq!(r.get_write_buf(), Some((0, 5, false)));
    assert_eq!(r.get_space_buf(), (0, 5));
    r.write(&[4, 5, 6, 7, 8]).unwrap();
    assert_eq!(r.get_write_buf(), None);
    assert_eq!(r.get_space_buf(), (0, 0));
}

#[test]
fn consume_of_first_run_empties() {
    let mut r = RingBufSeq::new(1);
    r.write(&[1, 2, 3]).unwrap();
    let (_, len) = r.get_data_buf();
    assert_eq!(len, 3);
    r.consume(len);
    assert_eq!(r.available_data_size(), 0);

    r.write(&[4, 5]).unwrap();
    let (_, len) = r.get_data_buf();
    r.produce(1);
    r.consume(len);
    assert_eq!(r.available_data_size(), 1);
}

#[test]
fn zero_copy_bytes_in_place() {
    let mut r = ring_at(1, 6);
    r.write(&[7, 8, 9]).unwrap();
    let (start, len) = r.get_data_buf();
    assert_eq!(&r.buf()[start as usize..start as usize + len], &[7, 8]);
    r.consume(len);
    let (start, len) = r.get_data_buf();
    assert_eq!(&r.buf()[start as usize..start as usize + len], &[9]);
}

#[test]
fn edge_triggers() {
    let mut r = RingBufSeq::new(1);
    assert!(r.produce(2));
    assert!(!r.produce(6));
    assert!(r.consume(1));
    assert!(!r.consume(1));
    assert!(!r.produce(2));
    assert!(r.consume(8));
    assert!(r.produce(8));
    assert!(r.consume(3));
}

#[test]
fn write_read_triggers() {
    let mut r = RingBufSeq::new(1);
    assert_eq!(r.write(&[1]).unwrap(), (true, 1));
    assert_eq!(r.write(&[2]).unwrap(), (false, 1));
    r.write(&[0; 6]).unwrap();
    let mut out = [0u8; 1];
    assert_eq!(r.read(&mut out).unwrap(), (true, 1));
    assert_eq!(r.read(&mut out).unwrap(), (false, 1));
}

#[test]
fn checked_produce() {
    let mut r = RingBufSeq::new(1);
    r.produce(5);
    assert!(matches!(r.produce_with_check(4), Err(Error::SysError(SysErr::EINVAL))));
    assert_eq!(r.available_data_size(), 5);
    assert!(matches!(r.produce_with_check(3), Ok(false)));
    assert_eq!(r.available_space(), 0);
    assert!(matches!(r.produce_with_check(1), Err(Error::SysError(SysErr::EINVAL))));
    let mut e = RingBufSeq::new(1);
    assert!(matches!(e.produce_with_check(0), Ok(true)));
    assert!(matches!(e.produce_with_check(usize::MAX), Err(Error::SysError(SysErr::EINVAL))));
}

#[test]
fn checked_consume() {
    let mut r = RingBufSeq::new(1);
    assert!(matches!(r.consume_with_check(1), Err(Error::SysError(SysErr::EINVAL))));
    r.produce(8);
    assert!(matches!(r.consume_with_check(9), Err(Error::SysError(SysErr::EINVAL))));
    assert_eq!(r.available_data_size(), 8);
    assert!(matches!(r.consume_with_check(3), Ok(true)));
    assert!(matches!(r.consume_with_check(5), Ok(false)));
    assert_eq!(r.available_data_size(), 0);
}

#[test]
fn data_iovs() {
    let mut r = ring_at(1, 5);
    let mut v = slots(3);
    r.prepare_data_iovs(&mut v);
    assert_eq!(v.cnt, 0);
    r.write(&[1, 2]).unwrap();
    r.prepare_data_iovs(&mut v);
    assert_eq!(v.cnt, 1);
    assert_eq!(v.iovs[0], Iov { start: 5, len: 2 });
    assert_eq!(v.iovs[1], Iov { start: 99, len: 99 });
    r.write(&[3, 4, 5]).unwrap();
    r.prepare_data_iovs(&mut v);
    assert_eq!(v.cnt, 2);
    assert_eq!(v.iovs[0], Iov { start: 5, len: 3 });
    assert_eq!(v.iovs[1], Iov { start: 0, len: 2 });
    assert_eq!(v.iovs[2], Iov { start: 99, len: 99 });
}

#[test]
fn space_iovs() {
    let mut r = ring_at(1, 2);
    let mut v = slots(2);
    r.prepare_space_iovs(&mut v);
    assert_eq!(v.cnt, 2);
    assert_eq!(v.iovs[0], Iov { start: 2, len: 6 });
    assert_eq!(v.iovs[1], Iov { start: 0, len: 2 });
    r.write(&[1; 6]).unwrap();
    r.prepare_space_iovs(&mut v);
    assert_eq!(v.cnt, 1);
    assert_eq!(v.iovs[0], Iov { start: 0, len: 2 });
    r.write(&[1; 2]).unwrap();
    r.prepare_space_iovs(&mut v);
    assert_eq!(v.cnt, 0);
}

#[test]
fn occupied_and_free_sum_to_capacity() {
    let mut r = ring_at(4, 0xFFFF_FFF0);
    for step in 0..40usize {
        let data = vec![step as u8; step % 11];
        r.write(&data).unwrap();
        assert_eq!(r.available_data_size() + r.available_space(), 32);
        let mut out = vec![0u8; step % 7];
        r.read(&mut out).unwrap();
        assert_eq!(r.available_data_size() + r.available_space(), 32);
    }
}

#[test]
fn stream_keeps_order() {
    let mut r = ring_at(2, 0xFFFF_FFFA);
    let mut sent: Vec<u8> = Vec::new();
    let mut got: Vec<u8> = Vec::new();
    let mut next: u8 = 0;
    for step in 0..60usize {
        let chunk: Vec<u8> = (0..(step % 9)).map(|i| next.wrapping_add(i as u8)).collect();
        let (_, n) = r.write(&chunk).unwrap();
        sent.extend_from_slice(&chunk[..n]);
        next = next.wrapping_add(n as u8);
        let mut out = vec![0u8; step % 5];
        let (_, m) = r.read(&mut out).unwrap();
        got.extend_from_slice(&out[..m]);
    }
    let mut out = vec![0u8; 16];
    let (_, m) = r.read(&mut out).unwrap();
    got.extend_from_slice(&out[..m]);
    assert_eq!(got, sent);
    assert!(sent.len() > 100);
}
