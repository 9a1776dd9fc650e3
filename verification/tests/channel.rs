use nacelle::channel::{
    publish, read, read_into, ChannelBoard, CHANNEL_TOPICS_MAX, CHANNEL_TOPIC_MAX,
    CHANNEL_VALUE_MAX,
};

#[test]
fn a_value_stands_under_its_topic_until_it_is_replaced() {
    let mut board = ChannelBoard::new();
    // Nothing published: absent, and absent is not "empty".
    assert_eq!(read(&board, "test.never"), None);
    assert_eq!(nacelle::channel::seq(&board, "test.never"), 0);

    // The first value numbers from 1.
    assert_eq!(publish(&mut board, "test.pick", b"Utility"), 1);
    let m = read(&board, "test.pick").expect("a published value stands");
    assert_eq!(m.data, b"Utility");
    assert_eq!(m.seq, 1);

    // A reader that did not exist at publication time still reads it.
    assert_eq!(read(&board, "test.pick").map(|m| m.data), Some(b"Utility".to_vec()));

    // Replacing steps the sequence.
    assert_eq!(publish(&mut board, "test.pick", b"Games"), 2);
    assert_eq!(nacelle::channel::seq(&board, "test.pick"), 2);
    assert_eq!(read(&board, "test.pick").unwrap().data, b"Games");

    // An EMPTY payload is a value, distinct from no value at all.
    assert_eq!(publish(&mut board, "test.pick", b""), 3);
    let m = read(&board, "test.pick").expect("an empty value is still a value");
    assert!(m.data.is_empty());
    assert_eq!(m.seq, 3);

    // Topics do not run into each other.
    publish(&mut board, "test.other", b"x");
    assert_eq!(read(&board, "test.pick").unwrap().data, Vec::<u8>::new());

    // A short buffer is told how much it MISSED, not how much it got.
    publish(&mut board, "test.long", b"0123456789");
    let mut small = [0u8; 4];
    let (len, s) = read_into(&board, "test.long", &mut small);
    assert_eq!(len, 10, "the full length, not the four bytes written");
    assert_eq!(s, 1);
    assert_eq!(&small, b"0123");
    // And `read` gets the whole of a value past any probe.
    let big = vec![b'z'; 1000];
    publish(&mut board, "test.long", &big);
    assert_eq!(read(&board, "test.long").unwrap().data, big);

    // Refusals answer 0 and change nothing.
    assert_eq!(publish(&mut board, "", b"x"), 0);
    assert_eq!(publish(&mut board, &"t".repeat(CHANNEL_TOPIC_MAX + 1), b"x"), 0);
    assert_eq!(publish(&mut board, "test.huge", &vec![0u8; CHANNEL_VALUE_MAX + 1]), 0);
    assert_eq!(read(&board, "test.huge"), None);
}

#[test]
fn a_full_board_refuses_new_topics_and_keeps_the_old_ones() {
    let mut board = ChannelBoard::new();
    for i in 0..CHANNEL_TOPICS_MAX {
        assert_eq!(publish(&mut board, &format!("t{i}"), b"v"), 1);
    }
    assert_eq!(publish(&mut board, "one.too.many", b"v"), 0);
    assert_eq!(read(&board, "one.too.many"), None);
    // An existing topic may still be replaced.
    assert_eq!(publish(&mut board, "t0", b"w"), 2);
    assert_eq!(read(&board, "t0").unwrap().data, b"w");
}

#[test]
fn a_long_buffer_keeps_what_lies_past_the_value() {
    let mut board = ChannelBoard::new();
    publish(&mut board, "k", b"ab");
    let mut buf = [b'.'; 5];
    assert_eq!(read_into(&board, "k", &mut buf), (2, 1));
    assert_eq!(&buf, b"ab...");
    let mut untouched = [b'.'; 3];
    assert_eq!(read_into(&board, "absent", &mut untouched), (0, 0));
    assert_eq!(&untouched, b"...");
}
