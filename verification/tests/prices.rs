use protohackers::prices::{
    encode_i32_be, get_mean_from_minmax_time, handle_frame, parse_arg, Message, MessageError,
    PriceStore,
};

#[test]
fn test_message_for_query() {
    let message = Message::Query {
        min_time: 0,
        max_time: 1000,
    };

    let frame = [b'Q', 0, 0, 0, 0, 0, 0, 3, 232];

    assert_eq!(Message::try_from(frame).unwrap(), message)
}

#[test]
fn test_message_for_invalid_data() {
    let frame = [0, 0, 0, 0, 0, 0, 0, 0, 0];
    assert!(Message::try_from(frame).is_err())
}

#[test]
fn insert_frame_decodes_negative_numbers() {
    let frame = [b'I', 0xff, 0xff, 0xff, 0xff, 0x80, 0, 0, 0];
    assert_eq!(
        Message::try_from(frame).unwrap(),
        Message::Insert {
            timestamp: -1,
            price: i32::MIN
        }
    );
}

#[test]
fn parse_arg_needs_four_bytes() {
    assert_eq!(parse_arg(&[0, 0, 1, 0]), Ok(256));
    assert_eq!(parse_arg(&[0x7f, 0xff, 0xff, 0xff]), Ok(i32::MAX));
    assert_eq!(parse_arg(&[0, 0, 1]), Err(MessageError {}));
    assert_eq!(parse_arg(&[0, 0, 0, 1, 2]), Err(MessageError {}));
}

#[test]
fn encode_i32_be_gives_big_endian_bytes() {
    assert_eq!(encode_i32_be(1000), [0, 0, 3, 232]);
    assert_eq!(encode_i32_be(-1), [0xff, 0xff, 0xff, 0xff]);
    assert_eq!(encode_i32_be(i32::MIN), [0x80, 0, 0, 0]);
    for x in [0, 1, -2, 123456789, -987654321, i32::MAX] {
        assert_eq!(encode_i32_be(x), x.to_be_bytes());
        assert_eq!(parse_arg(&encode_i32_be(x)), Ok(x));
    }
}

#[test]
fn mean_of_the_example_session() {
    let mut store = PriceStore::new();
    store.insert(12345, 101);
    store.insert(12346, 102);
    store.insert(12347, 100);
    store.insert(40960, 5);
    assert_eq!(get_mean_from_minmax_time(&store, 12288, 16384), 101);
}

#[test]
fn mean_is_zero_for_empty_or_inverted_ranges() {
    let mut store = PriceStore::new();
    assert_eq!(get_mean_from_minmax_time(&store, 0, 100), 0);
    store.insert(50, 7);
    assert_eq!(get_mean_from_minmax_time(&store, 100, 0), 0);
    assert_eq!(get_mean_from_minmax_time(&store, 51, 100), 0);
    assert_eq!(get_mean_from_minmax_time(&store, 50, 50), 7);
}

#[test]
fn mean_rounds_toward_zero() {
    let mut store = PriceStore::new();
    store.insert(1, -3);
    store.insert(2, -4);
    assert_eq!(get_mean_from_minmax_time(&store, 1, 2), -3);
    store.insert(3, 10);
    store.insert(4, 11);
    assert_eq!(get_mean_from_minmax_time(&store, 3, 4), 10);
}

#[test]
fn mean_of_extreme_prices_does_not_overflow() {
    let mut store = PriceStore::new();
    store.insert(i32::MIN, i32::MIN);
    store.insert(0, i32::MIN);
    store.insert(i32::MAX, i32::MIN);
    assert_eq!(get_mean_from_minmax_time(&store, i32::MIN, i32::MAX), i32::MIN);
    store.insert(5, i32::MAX);
    store.insert(6, i32::MAX);
    assert_eq!(get_mean_from_minmax_time(&store, 5, 6), i32::MAX);
}

#[test]
fn a_second_insert_replaces_the_price() {
    let mut store = PriceStore::new();
    store.insert(10, 1);
    store.insert(5, 100);
    store.insert(10, 3);
    assert_eq!(get_mean_from_minmax_time(&store, 10, 10), 3);
    assert_eq!(get_mean_from_minmax_time(&store, 0, 20), 51);
}

#[test]
fn session_answers_queries_only() {
    let mut store = PriceStore::new();
    assert_eq!(
        handle_frame(&mut store, [b'I', 0, 0, 0x30, 0x39, 0, 0, 0, 0x65]),
        None
    );
    assert_eq!(
        handle_frame(&mut store, [b'I', 0, 0, 0x30, 0x3a, 0, 0, 0, 0x66]),
        None
    );
    assert_eq!(
        handle_frame(&mut store, [b'X', 0, 0, 0, 0, 0, 0, 0, 0]),
        None
    );
    assert_eq!(
        handle_frame(&mut store, [b'Q', 0, 0, 0x30, 0x00, 0, 0, 0x40, 0x00]),
        Some([0, 0, 0, 0x65])
    );
}
