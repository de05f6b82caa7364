use bytescan::iter::Bytes;

#[test]
fn cursor_reads_to_the_end_and_hands_back_what_it_read() {
    let buf = [b'a', b'b', b'c'];
    let mut bytes = Bytes::new(&buf);
    assert_eq!(bytes.len(), 3);
    assert_eq!(bytes.pos(), 0);
    bytes.bump();
    bytes.bump();
    bytes.bump();
    assert_eq!(bytes.pos(), 3);
    assert_eq!(bytes.peek(), None);
    let head = bytes.slice();
    assert_eq!(head, &buf[..]);
    assert_eq!(bytes.len(), 0);
    assert_eq!(bytes.pos(), 0);
    assert_eq!(bytes.peek(), None);
}

#[test]
fn peek_does_not_move_the_cursor() {
    let buf = [b'x', b'y'];
    let mut bytes = Bytes::new(&buf);
    assert_eq!(bytes.peek(), Some(b'x'));
    assert_eq!(bytes.peek(), Some(b'x'));
    assert_eq!(bytes.peek(), Some(b'x'));
    assert_eq!(bytes.pos(), 0);
    bytes.bump();
    assert_eq!(bytes.peek(), Some(b'y'));
    assert_eq!(bytes.peek(), Some(b'y'));
    bytes.bump();
    assert_eq!(bytes.peek(), None);
    assert_eq!(bytes.peek(), None);
}

#[test]
fn peek_on_an_empty_buffer() {
    let bytes = Bytes::new(&[]);
    assert_eq!(bytes.peek(), None);
    assert_eq!(bytes.len(), 0);
    assert_eq!(bytes.pos(), 0);
}

#[test]
fn slice_cuts_at_the_position() {
    let buf = *b"GET /path";
    let mut bytes = Bytes::new(&buf);
    bytes.bump();
    bytes.bump();
    bytes.bump();
    let head = bytes.slice();
    assert_eq!(head, b"GET");
    assert_eq!(bytes.pos(), 0);
    assert_eq!(bytes.len(), 6);
    assert_eq!(bytes.peek(), Some(b' '));
    let nothing = bytes.slice();
    assert_eq!(nothing, b"");
    assert_eq!(bytes.len(), 6);
}

#[test]
fn slice_skip_leaves_out_the_last_bytes_read() {
    let buf = *b"name: value";
    let mut bytes = Bytes::new(&buf);
    for _ in 0..5 {
        bytes.bump();
    }
    let head = bytes.slice_skip(1);
    assert_eq!(head, b"name");
    assert_eq!(bytes.pos(), 0);
    assert_eq!(bytes.len(), 6);
    assert_eq!(bytes.peek(), Some(b' '));
    bytes.bump();
    bytes.bump();
    let none = bytes.slice_skip(2);
    assert_eq!(none, b"");
    assert_eq!(bytes.peek(), Some(b'a'));
}

#[test]
fn window_needs_a_byte_to_spare() {
    let buf = [7u8; 8];
    let mut bytes = Bytes::new(&buf);
    assert!(bytes.next_8().is_none());
    assert_eq!(bytes.pos(), 0);

    let buf = [7u8; 9];
    let mut bytes = Bytes::new(&buf);
    bytes.bump();
    assert!(bytes.next_8().is_none());
    assert_eq!(bytes.pos(), 1);

    let mut none_left = Bytes::new(&[]);
    assert!(none_left.next_8().is_none());
}

#[test]
fn window_opens_when_more_than_eight_bytes_are_unread() {
    let buf = [0u8, 1, 2, 3, 4, 5, 6, 7, 8];
    let mut bytes = Bytes::new(&buf);
    assert!(bytes.next_8().is_some());
    assert_eq!(bytes.pos(), 0);
}

#[test]
fn window_reads_eight_bytes_in_order() {
    let buf = [10u8, 11, 12, 13, 14, 15, 16, 17, 18, 19];
    let mut bytes = Bytes::new(&buf);
    {
        let mut window = bytes.next_8().unwrap();
        assert_eq!(window._0(), 10);
        assert_eq!(window._1(), 11);
        assert_eq!(window._2(), 12);
        assert_eq!(window._3(), 13);
        assert_eq!(window._4(), 14);
        assert_eq!(window._5(), 15);
        assert_eq!(window._6(), 16);
        assert_eq!(window._7(), 17);
    }
    assert_eq!(bytes.pos(), 8);
    assert_eq!(bytes.peek(), Some(18));
    assert!(bytes.next_8().is_none());
}

#[test]
fn window_left_early_keeps_what_it_read() {
    let buf = *b"HTTP/1.1 200";
    let mut bytes = Bytes::new(&buf);
    {
        let mut window = bytes.next_8().unwrap();
        assert_eq!(window._0(), b'H');
        assert_eq!(window._1(), b'T');
        assert_eq!(window._2(), b'T');
    }
    assert_eq!(bytes.pos(), 3);
    assert_eq!(bytes.peek(), Some(b'P'));
}

#[test]
fn window_opens_from_the_middle() {
    let buf = *b"xxHTTP/1.1 ";
    let mut bytes = Bytes::new(&buf);
    bytes.bump();
    bytes.bump();
    {
        let mut window = bytes.next_8().unwrap();
        assert_eq!(window._0(), b'H');
        assert_eq!(window._1(), b'T');
        assert_eq!(window._2(), b'T');
        assert_eq!(window._3(), b'P');
        assert_eq!(window._4(), b'/');
        assert_eq!(window._5(), b'1');
        assert_eq!(window._6(), b'.');
        assert_eq!(window._7(), b'1');
    }
    assert_eq!(bytes.pos(), 10);
    assert_eq!(bytes.slice(), b"xxHTTP/1.1");
}

#[test]
fn find_without_stride_scanning_returns_none() {
    let buf = [b'A'];
    let mut bytes = Bytes::new(&buf);
    assert!(!bytes.is_accelerated());
    assert_eq!(bytes.find(&[b'A', b'A']), None);
    assert_eq!(bytes.pos(), 0);

    let long = [b'A'; 64];
    let mut bytes = Bytes::new(&long);
    assert_eq!(bytes.find(&[b'A', b'Z']), None);
    assert_eq!(bytes.pos(), 0);
    assert_eq!(bytes.find(&[0, 255]), None);
    assert_eq!(bytes.peek(), Some(b'A'));

    let mut bytes = Bytes::with_acceleration(&long, false);
    assert_eq!(bytes.find(&[b'A', b'Z']), None);
    assert_eq!(bytes.pos(), 0);
}

#[test]
fn find_stops_just_past_the_first_byte_in_a_range() {
    let mut buf = [b'a'; 40];
    buf[5] = b':';
    buf[9] = b' ';
    let mut bytes = Bytes::with_acceleration(&buf, true);
    assert!(bytes.is_accelerated());
    assert_eq!(bytes.find(&[b':', b':', b' ', b' ']), Some(b':'));
    assert_eq!(bytes.pos(), 6);
    assert_eq!(bytes.slice_skip(1), b"aaaaa");
    assert_eq!(bytes.find(&[b':', b':', b' ', b' ']), Some(b' '));
    assert_eq!(bytes.pos(), 4);
}

#[test]
fn find_reaches_into_a_later_stride() {
    let mut buf = [b'a'; 50];
    buf[37] = 0x7f;
    let mut bytes = Bytes::with_acceleration(&buf, true);
    bytes.bump();
    bytes.bump();
    assert_eq!(bytes.find(&[0x00, 0x1f, 0x7f, 0xff]), Some(0x7f));
    assert_eq!(bytes.pos(), 38);
}

#[test]
fn find_sees_whole_strides_only() {
    let mut buf = [b'a'; 40];
    buf[35] = b':';
    let mut bytes = Bytes::with_acceleration(&buf, true);
    assert_eq!(bytes.find(&[b':', b':']), None);
    assert_eq!(bytes.pos(), 32);
    assert_eq!(bytes.find(&[b':', b':']), None);
    assert_eq!(bytes.pos(), 32);

    let short = [b':'; 15];
    let mut bytes = Bytes::with_acceleration(&short, true);
    assert_eq!(bytes.find(&[b':', b':']), None);
    assert_eq!(bytes.pos(), 0);
}

#[test]
fn find_takes_no_ranges_and_half_a_range_for_nothing() {
    let buf = [b'a'; 32];
    let mut bytes = Bytes::with_acceleration(&buf, true);
    assert_eq!(bytes.find(&[]), None);
    assert_eq!(bytes.pos(), 32);
    let mut bytes = Bytes::with_acceleration(&buf, true);
    assert_eq!(bytes.find(&[b'a']), None);
    assert_eq!(bytes.pos(), 32);
    let mut bytes = Bytes::with_acceleration(&buf, true);
    assert_eq!(bytes.find(&[b'b', b'z', b'a']), None);
    let mut bytes = Bytes::with_acceleration(&buf, true);
    assert_eq!(bytes.find(&[b'a', b'a']), Some(b'a'));
    assert_eq!(bytes.pos(), 1);
}

#[test]
fn find_with_eight_ranges() {
    let mut buf = [b'm'; 16];
    buf[15] = b'8';
    let ranges = [
        b'0', b'0', b'1', b'1', b'2', b'2', b'3', b'3', b'4', b'4', b'5', b'5', b'6', b'6', b'8',
        b'9',
    ];
    let mut bytes = Bytes::with_acceleration(&buf, true);
    assert_eq!(bytes.find(&ranges), Some(b'8'));
    assert_eq!(bytes.pos(), 16);
    assert_eq!(bytes.peek(), None);
}

#[test]
fn slice_keeps_the_way_find_works() {
    let buf = [b'a'; 40];
    let mut bytes = Bytes::with_acceleration(&buf, true);
    bytes.bump();
    let _ = bytes.slice();
    assert!(bytes.is_accelerated());
    assert_eq!(bytes.find(&[b'a', b'a']), Some(b'a'));

    let mut bytes = Bytes::new(&buf);
    bytes.bump();
    let _ = bytes.slice();
    assert!(!bytes.is_accelerated());
}

#[test]
fn next_yields_each_byte_once_and_then_nothing() {
    let buf = [1u8, 2, 3];
    let mut bytes = Bytes::new(&buf);
    assert_eq!(bytes.next(), Some(1));
    assert_eq!(bytes.pos(), 1);
    assert_eq!(bytes.next(), Some(2));
    assert_eq!(bytes.next(), Some(3));
    assert_eq!(bytes.pos(), 3);
    assert_eq!(bytes.next(), None);
    assert_eq!(bytes.next(), None);
    assert_eq!(bytes.pos(), 3);
    assert_eq!(bytes.slice(), &[1, 2, 3]);
}
