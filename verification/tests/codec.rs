use chat_relay::codec::{encode_frame, parse_frame, usize_to_string, ChatMessage, ChatType};

/// The canonical text of a frame, character for character.
#[test]
fn encode_exact_text() {
    let m = ChatMessage {
        chat_type: ChatType::TEXT,
        value: vec!["hi".to_string()],
        room_id: "main".to_string(),
        user_id: "u1".to_string(),
        id: 7,
    };
    assert_eq!(
        encode_frame(&m),
        "{\"chat_type\":\"TEXT\",\"value\":[\"hi\"],\"room_id\":\"main\",\"user_id\":\"u1\",\"id\":7}"
    );
}

/// Quotes, backslashes and control characters travel escaped and come
/// back intact.
#[test]
fn encode_escapes_and_round_trips() {
    let m = ChatMessage {
        chat_type: ChatType::TYPING,
        value: vec!["a\"b".to_string(), "c\\d".to_string(), "e\nf\tg\rh".to_string()],
        room_id: "room \"one\"".to_string(),
        user_id: "".to_string(),
        id: 999999999999999999,
    };
    let text = encode_frame(&m);
    assert!(text.contains("a\\\"b"));
    assert!(text.contains("c\\\\d"));
    assert!(text.contains("e\\nf\\tg\\rh"));
    let back = parse_frame(text.as_str()).unwrap();
    assert!(back.chat_type == ChatType::TYPING);
    assert_eq!(back.value, m.value);
    assert_eq!(back.room_id, m.room_id);
    assert_eq!(back.user_id, m.user_id);
    assert_eq!(back.id, m.id);
}

/// An empty value list and empty strings are fine.
#[test]
fn encode_empty_value_list() {
    let m = ChatMessage {
        chat_type: ChatType::CONNECT,
        value: Vec::new(),
        room_id: "".to_string(),
        user_id: "".to_string(),
        id: 0,
    };
    let text = encode_frame(&m);
    assert_eq!(
        text,
        "{\"chat_type\":\"CONNECT\",\"value\":[],\"room_id\":\"\",\"user_id\":\"\",\"id\":0}"
    );
    let back = parse_frame(text.as_str()).unwrap();
    assert!(back.chat_type == ChatType::CONNECT);
    assert_eq!(back.value.len(), 0);
    assert_eq!(back.id, 0);
}

/// Frames that are not well-formed wire text are rejected.
#[test]
fn parse_rejects_malformed_text() {
    assert!(parse_frame("").is_none());
    assert!(parse_frame("hello").is_none());
    assert!(parse_frame("{\"chat_type\":\"TEXT\"}").is_none());
    // wrong kind word
    assert!(parse_frame(
        "{\"chat_type\":\"SHOUT\",\"value\":[\"x\"],\"room_id\":\"r\",\"user_id\":\"u\",\"id\":1}"
    )
    .is_none());
    // unknown escape
    assert!(parse_frame(
        "{\"chat_type\":\"TEXT\",\"value\":[\"a\\qb\"],\"room_id\":\"r\",\"user_id\":\"u\",\"id\":1}"
    )
    .is_none());
    // trailing garbage
    assert!(parse_frame(
        "{\"chat_type\":\"TEXT\",\"value\":[\"x\"],\"room_id\":\"r\",\"user_id\":\"u\",\"id\":1}x"
    )
    .is_none());
    // number does not fit the machine word
    assert!(parse_frame(
        "{\"chat_type\":\"TEXT\",\"value\":[\"x\"],\"room_id\":\"r\",\"user_id\":\"u\",\"id\":99999999999999999999}"
    )
    .is_none());
}

/// Parsing accepts exactly the wire shape, inbound id included.
#[test]
fn parse_reads_all_fields() {
    let text = "{\"chat_type\":\"TYPING\",\"value\":[\"a\",\"b\",\"c\"],\"room_id\":\"main\",\"user_id\":\"u9\",\"id\":42}";
    let m = parse_frame(text).unwrap();
    assert!(m.chat_type == ChatType::TYPING);
    assert_eq!(m.value, vec!["a".to_string(), "b".to_string(), "c".to_string()]);
    assert_eq!(m.room_id, "main");
    assert_eq!(m.user_id, "u9");
    assert_eq!(m.id, 42);
}

/// Inside a quoted string a raw control character is read as itself;
/// only the escaped spellings are what the encoder emits.
#[test]
fn parse_accepts_raw_control_chars() {
    let text = "{\"chat_type\":\"TEXT\",\"value\":[\"a\nb\"],\"room_id\":\"r\",\"user_id\":\"u\",\"id\":1}";
    let m = parse_frame(text).unwrap();
    assert_eq!(m.value, vec!["a\nb".to_string()]);
    // the canonical form of the same frame escapes the newline
    assert!(encode_frame(&m).contains("a\\nb"));
}

/// Numbers are written in plain decimal.
#[test]
fn number_formatting() {
    assert_eq!(usize_to_string(0), "0");
    assert_eq!(usize_to_string(7), "7");
    assert_eq!(usize_to_string(105), "105");
    assert_eq!(usize_to_string(18446744073709551615), "18446744073709551615");
}
