use std::sync::Arc;
use threadkit::ring::{CircularBuffer, Error, TryDeref};
use threadkit::sync_ring::{BlockingSyncBuf, SyncBuffer};

#[test]
fn zero_capacity_is_refused() {
    assert!(matches!(CircularBuffer::<u32>::new(0), Err(Error::InvalidConfiguration)));
    assert!(matches!(SyncBuffer::<u32>::new(0), Err(Error::InvalidConfiguration)));
    assert!(matches!(BlockingSyncBuf::<u32>::new(0), Err(Error::InvalidConfiguration)));
}

#[test]
fn write_then_read_keeps_order() {
    let mut buf = CircularBuffer::<u32>::new(3).unwrap();
    assert!(buf.is_empty());
    assert_eq!(buf.slots(), 3);
    assert_eq!(buf.write(1), Ok(()));
    assert_eq!(buf.write(2), Ok(()));
    assert_eq!(buf.len(), 2);
    assert!(!buf.is_full());
    assert_eq!(buf.write(3), Ok(()));
    assert!(buf.is_full());
    assert_eq!(buf.write(4), Err(Error::FullBuffer));
    assert_eq!(buf.len(), 3);
    assert_eq!(buf.read(), Ok(1));
    assert_eq!(buf.read(), Ok(2));
    assert_eq!(buf.read(), Ok(3));
    assert_eq!(buf.read(), Err(Error::EmptyBuffer));
    assert_eq!(buf.len(), 0);
}

#[test]
fn order_survives_wrapping_around() {
    let mut buf = CircularBuffer::<u32>::new(3).unwrap();
    let mut next_in = 0;
    let mut next_out = 0;
    for round in 0..20 {
        for _ in 0..(round % 3 + 1) {
            if buf.write(next_in).is_ok() {
                next_in += 1;
            }
            assert!(buf.len() <= 3);
        }
        for _ in 0..(round % 2 + 1) {
            if let Ok(got) = buf.read() {
                assert_eq!(got, next_out);
                next_out += 1;
            }
        }
    }
    while let Ok(got) = buf.read() {
        assert_eq!(got, next_out);
        next_out += 1;
    }
    assert_eq!(next_in, next_out);
}

#[test]
fn second_write_waits_until_a_read() {
    let mut buf = CircularBuffer::<char>::new(1).unwrap();
    let mut a = Some('A');
    let mut b = Some('B');
    assert!(!buf.offer(&mut a));
    assert_eq!(a, None);
    assert!(buf.offer(&mut b));
    assert_eq!(b, Some('B'));
    assert_eq!(buf.read(), Ok('A'));
    assert!(!buf.offer(&mut b));
    assert_eq!(b, None);
    assert_eq!(buf.read(), Ok('B'));
}

#[test]
fn poll_waits_for_an_element() {
    let mut buf = CircularBuffer::<u8>::new(2).unwrap();
    let mut out = None;
    assert!(buf.poll(&mut out));
    assert_eq!(out, None);
    buf.write(9).unwrap();
    assert!(!buf.poll(&mut out));
    assert_eq!(out, Some(9));
    assert!(buf.is_empty());
}

#[test]
fn offer_of_nothing_asks_for_nothing() {
    let mut buf = CircularBuffer::<u8>::new(1).unwrap();
    buf.write(1).unwrap();
    let mut nothing: Option<u8> = None;
    assert!(!buf.offer(&mut nothing));
    assert_eq!(buf.len(), 1);
}

#[test]
fn overwrite_drops_the_oldest_when_full() {
    let mut buf = CircularBuffer::<u32>::new(2).unwrap();
    buf.overwrite(1);
    buf.overwrite(2);
    buf.overwrite(3);
    assert_eq!(buf.len(), 2);
    assert_eq!(buf.read(), Ok(2));
    assert_eq!(buf.read(), Ok(3));
}

#[test]
fn clear_empties_the_buffer() {
    let mut buf = CircularBuffer::<u32>::new(4).unwrap();
    buf.write(1).unwrap();
    buf.write(2).unwrap();
    buf.clear();
    assert!(buf.is_empty());
    assert_eq!(buf.slots(), 4);
    assert_eq!(buf.write(5), Ok(()));
    assert_eq!(buf.read(), Ok(5));
}

#[test]
fn elements_are_reached_by_their_place() {
    let mut buf = CircularBuffer::<u32>::new(3).unwrap();
    buf.write(10).unwrap();
    buf.write(20).unwrap();
    buf.write(30).unwrap();
    buf.read().unwrap();
    buf.write(40).unwrap();
    assert_eq!(*buf.get(0), 20);
    assert_eq!(buf[1], 30);
    assert_eq!(buf[2], 40);
    assert_eq!(buf.real_index(0), 1);
    assert_eq!(buf.real_index(2), 0);
    *buf.get_mut(1) = 31;
    assert_eq!(buf.read(), Ok(20));
    assert_eq!(buf.read(), Ok(31));
    assert_eq!(buf.read(), Ok(40));
}

#[test]
fn try_deref_hands_out_a_stretch_that_does_not_wrap() {
    let mut buf = CircularBuffer::<u32>::new(4).unwrap();
    assert_eq!(buf.try_deref(), Ok(&[][..]));
    buf.write(1).unwrap();
    buf.write(2).unwrap();
    assert_eq!(buf.try_deref(), Ok(&[1, 2][..]));
    buf.write(3).unwrap();
    buf.write(4).unwrap();
    assert_eq!(buf.try_deref(), Ok(&[1, 2, 3, 4][..]));
    buf.read().unwrap();
    buf.read().unwrap();
    assert_eq!(buf.try_deref(), Ok(&[3, 4][..]));
    assert_eq!(buf.deref(), &[3, 4][..]);
    buf.write(5).unwrap();
    assert_eq!(buf.try_deref(), Err("not contiguous".to_string()));
}

#[test]
fn make_contiguous_keeps_the_order() {
    let mut buf = CircularBuffer::<u32>::new(5).unwrap();
    for v in 0..5 {
        buf.write(v).unwrap();
    }
    for _ in 0..3 {
        buf.read().unwrap();
    }
    buf.write(5).unwrap();
    assert_eq!(buf.try_deref(), Err("not contiguous".to_string()));
    buf.make_contiguous();
    assert_eq!(buf.real_index(0), 0);
    assert_eq!(buf.try_deref(), Ok(&[3, 4, 5][..]));
    assert_eq!(buf.len(), 3);
    assert_eq!(buf.read(), Ok(3));
    assert_eq!(buf.read(), Ok(4));
    assert_eq!(buf.read(), Ok(5));

    let mut full = CircularBuffer::<u32>::new(3).unwrap();
    for v in 0..3 {
        full.write(v).unwrap();
    }
    full.read().unwrap();
    full.write(3).unwrap();
    full.make_contiguous();
    assert_eq!(full.deref(), &[1, 2, 3][..]);
    assert!(full.is_full());

    let mut empty = CircularBuffer::<u32>::new(2).unwrap();
    empty.write(1).unwrap();
    empty.read().unwrap();
    empty.make_contiguous();
    assert!(empty.is_empty());
    empty.write(7).unwrap();
    assert_eq!(empty.real_index(0), 0);
}

#[test]
fn clear_moves_the_front_on_by_what_was_held() {
    let mut buf = CircularBuffer::<u32>::new(3).unwrap();
    buf.write(1).unwrap();
    buf.write(2).unwrap();
    buf.clear();
    buf.write(9).unwrap();
    assert_eq!(buf.real_index(0), 2);
    buf.clear();
    buf.clear();
    buf.write(8).unwrap();
    assert_eq!(buf.real_index(0), 0);
}

#[test]
fn overwrite_moves_the_front_only_when_full() {
    let mut buf = CircularBuffer::<u32>::new(2).unwrap();
    buf.overwrite(1);
    assert_eq!(buf.real_index(0), 0);
    buf.overwrite(2);
    assert_eq!(buf.real_index(0), 0);
    buf.overwrite(3);
    assert_eq!(buf.real_index(0), 1);
}

#[test]
fn the_stretch_is_changed_in_place() {
    let mut buf = CircularBuffer::<u32>::new(3).unwrap();
    buf.write(1).unwrap();
    buf.write(2).unwrap();
    buf.read().unwrap();
    buf.write(3).unwrap();
    buf.write(4).unwrap();
    {
        let stretch = buf.deref_mut();
        assert_eq!(stretch, &mut [2, 3, 4][..]);
        stretch[1] = 30;
    }
    assert_eq!(buf.real_index(0), 0);
    assert_eq!(buf.read(), Ok(2));
    assert_eq!(buf.read(), Ok(30));
    assert_eq!(buf.read(), Ok(4));
    let mut short = CircularBuffer::<u32>::new(4).unwrap();
    short.write(7).unwrap();
    assert_eq!(short.deref_mut().len(), 1);
    assert_eq!(short.len(), 1);
}

#[test]
fn shared_buffers_keep_their_size() {
    assert_eq!(SyncBuffer::<u32>::new(7).unwrap().slots(), 7);
    assert_eq!(BlockingSyncBuf::<u32>::new(3).unwrap().slots(), 3);
}

#[test]
fn shared_buffer_answers_at_once() {
    let buf = SyncBuffer::<u32>::new(1).unwrap();
    assert_eq!(buf.read(), Err(Error::EmptyBuffer));
    assert_eq!(buf.write(1), Ok(()));
    assert_eq!(buf.write(2), Err(Error::FullBuffer));
    assert_eq!(buf.read(), Ok(1));
    assert_eq!(buf.read(), Err(Error::EmptyBuffer));
}

#[test]
fn blocking_buffer_passes_elements_on() {
    let buf = Arc::new(BlockingSyncBuf::<u32>::new(2).unwrap());
    let other = buf.clone();
    buf.write_blocking(10).unwrap();
    other.write_blocking(20).unwrap();
    assert_eq!(buf.read_blocking(), Ok(10));
    buf.write_blocking(30).unwrap();
    assert_eq!(other.read_blocking(), Ok(20));
    assert_eq!(buf.read_blocking(), Ok(30));
}
