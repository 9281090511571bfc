use cavey::client::{receive_empty, receive_value};
use cavey::framing::{client_need, server_need};
use cavey::protocol::{ClientMessage, ServerMessage};
use cavey::server::{handle_connection, handle_message, reply_to_get, reply_to_write};
use cavey::wire::{decode_client, decode_server, encode_client, encode_server};
use cavey::{CaveyEngine, CaveyError, CaveyStore};

fn get(key: &str) -> ClientMessage {
    ClientMessage::Get { key: key.to_owned() }
}

fn put(key: &str, value: &str) -> ClientMessage {
    ClientMessage::Put { key: key.to_owned(), value: value.to_owned() }
}

fn remove(key: &str) -> ClientMessage {
    ClientMessage::Remove { key: key.to_owned() }
}

fn success(value: Option<&str>) -> ServerMessage {
    ServerMessage::Success { value: value.map(|text| text.to_owned()) }
}

fn failure(message: &str) -> ServerMessage {
    ServerMessage::Error { message: message.to_owned() }
}

#[test]
fn requests_are_a_tag_and_length_prefixed_strings() {
    assert_eq!(
        encode_client(&get("foo")),
        Ok(vec![0, 0, 0, 0, 3, 0, 0, 0, 0, 0, 0, 0, b'f', b'o', b'o'])
    );
    assert_eq!(
        encode_client(&put("foo", "ba")),
        Ok(vec![
            1, 0, 0, 0, 3, 0, 0, 0, 0, 0, 0, 0, b'f', b'o', b'o', 2, 0, 0, 0, 0, 0, 0, 0, b'b',
            b'a'
        ])
    );
    assert_eq!(encode_client(&remove("")), Ok(vec![2, 0, 0, 0, 0, 0, 0, 0, 0, 0, 0, 0]));
}

#[test]
fn replies_are_a_tag_and_their_field() {
    assert_eq!(encode_server(&success(None)), Ok(vec![0, 0, 0, 0, 0]));
    assert_eq!(
        encode_server(&success(Some("bar"))),
        Ok(vec![0, 0, 0, 0, 1, 3, 0, 0, 0, 0, 0, 0, 0, b'b', b'a', b'r'])
    );
    assert_eq!(
        encode_server(&failure("no")),
        Ok(vec![1, 0, 0, 0, 2, 0, 0, 0, 0, 0, 0, 0, b'n', b'o'])
    );
}

#[test]
fn lengths_count_bytes_of_utf8() {
    assert_eq!(
        encode_client(&get("\u{e9}\u{1F600}")),
        Ok(vec![0, 0, 0, 0, 6, 0, 0, 0, 0, 0, 0, 0, 0xc3, 0xa9, 0xf0, 0x9f, 0x98, 0x80])
    );
}

#[test]
fn requests_are_what_bincode_writes_for_their_parts() {
    let parts = (1u32, "some key".to_owned(), "some value".to_owned());
    assert_eq!(encode_client(&put("some key", "some value")).unwrap(), bincode::serialize(&parts).unwrap());
    let parts = (2u32, "gone".to_owned());
    assert_eq!(encode_client(&remove("gone")).unwrap(), bincode::serialize(&parts).unwrap());
    let parts = (0u32, Some("found".to_owned()));
    assert_eq!(encode_server(&success(Some("found"))).unwrap(), bincode::serialize(&parts).unwrap());
    let parts = (0u32, None::<String>);
    assert_eq!(encode_server(&success(None)).unwrap(), bincode::serialize(&parts).unwrap());
}

#[test]
fn a_request_reads_back_and_leaves_the_rest() {
    for message in [get("k"), put("key", "value"), put("", ""), remove("\u{1F600}")] {
        let mut bytes = encode_client(&message).unwrap();
        let len = bytes.len();
        assert_eq!(decode_client(&bytes), Ok((message.clone(), len)));
        bytes.extend_from_slice(&[1, 0, 0, 0, 9, 9]);
        assert_eq!(decode_client(&bytes), Ok((message, len)));
    }
}

#[test]
fn a_reply_reads_back_and_leaves_the_rest() {
    for message in [success(None), success(Some("")), success(Some("value")), failure("Key not found")] {
        let mut bytes = encode_server(&message).unwrap();
        let len = bytes.len();
        assert_eq!(decode_server(&bytes), Ok((message.clone(), len)));
        bytes.extend_from_slice(&[0, 0, 0, 0, 0]);
        assert_eq!(decode_server(&bytes), Ok((message, len)));
    }
}

#[test]
fn bytes_that_start_no_request_are_rejected() {
    let whole = encode_client(&put("key", "value")).unwrap();
    for cut in 0..whole.len() {
        assert_eq!(decode_client(&whole[..cut]), Err(CaveyError::DecodeError));
    }
    assert_eq!(decode_client(&[3, 0, 0, 0, 0, 0, 0, 0, 0, 0, 0, 0]), Err(CaveyError::DecodeError));
    assert_eq!(
        decode_client(&[0, 0, 0, 0, 1, 0, 0, 0, 0, 0, 0, 0, 0xff]),
        Err(CaveyError::DecodeError)
    );
    assert_eq!(
        decode_client(&[0, 0, 0, 0, 0xff, 0xff, 0xff, 0xff, 0xff, 0xff, 0xff, 0xff, b'a']),
        Err(CaveyError::DecodeError)
    );
}

#[test]
fn bytes_that_start_no_reply_are_rejected() {
    let whole = encode_server(&success(Some("value"))).unwrap();
    for cut in 0..whole.len() {
        assert_eq!(decode_server(&whole[..cut]), Err(CaveyError::DecodeError));
    }
    assert_eq!(decode_server(&[2, 0, 0, 0, 0]), Err(CaveyError::DecodeError));
    assert_eq!(decode_server(&[0, 0, 0, 0, 2]), Err(CaveyError::DecodeError));
    assert_eq!(
        decode_server(&[1, 0, 0, 0, 1, 0, 0, 0, 0, 0, 0, 0, 0x80]),
        Err(CaveyError::DecodeError)
    );
}

fn read_in_steps(wire: &[u8], need: fn(&[u8]) -> usize) -> (usize, Vec<usize>) {
    let mut held = 0;
    let mut steps = Vec::new();
    loop {
        let more = need(&wire[..held]);
        if more == 0 {
            return (held, steps);
        }
        steps.push(more);
        held += more;
        assert!(held <= wire.len());
    }
}

#[test]
fn a_request_is_read_in_steps_that_end_with_it() {
    let mut stream = encode_client(&put("key", "value")).unwrap();
    let len = stream.len();
    stream.extend_from_slice(&encode_client(&get("next")).unwrap());
    assert_eq!(read_in_steps(&stream, client_need), (len, vec![4, 8, 3, 8, 5]));
    let mut stream = encode_client(&get("key")).unwrap();
    let len = stream.len();
    stream.extend_from_slice(&[7; 20]);
    assert_eq!(read_in_steps(&stream, client_need), (len, vec![4, 8, 3]));
    let stream = encode_client(&remove("")).unwrap();
    assert_eq!(read_in_steps(&stream, client_need), (12, vec![4, 8]));
}

#[test]
fn a_reply_is_read_in_steps_that_end_with_it() {
    let mut stream = encode_server(&success(None)).unwrap();
    stream.extend_from_slice(&[1; 20]);
    assert_eq!(read_in_steps(&stream, server_need), (5, vec![4, 1]));
    let mut stream = encode_server(&success(Some("bar"))).unwrap();
    stream.extend_from_slice(&[1; 20]);
    assert_eq!(read_in_steps(&stream, server_need), (16, vec![4, 1, 8, 3]));
    let mut stream = encode_server(&failure("Key not found")).unwrap();
    stream.extend_from_slice(&[1; 20]);
    assert_eq!(read_in_steps(&stream, server_need), (25, vec![4, 8, 13]));
}

#[test]
fn nothing_is_needed_where_no_message_starts() {
    assert_eq!(client_need(&[3, 0, 0, 0]), 0);
    assert_eq!(client_need(&[0, 0, 0, 1]), 0);
    assert_eq!(client_need(&[0, 0, 0, 0, 0xff, 0xff, 0xff, 0xff, 0xff, 0xff, 0xff, 0xff]), 0);
    assert_eq!(server_need(&[2, 0, 0, 0]), 0);
    assert_eq!(server_need(&[0, 0, 0, 0, 2]), 0);
    assert_eq!(client_need(&[]), 4);
    assert_eq!(client_need(&[1]), 3);
    assert_eq!(server_need(&[]), 4);
}

#[test]
fn replies_are_made_from_what_the_engine_answers() {
    assert_eq!(reply_to_get(Ok(Some("v".to_owned()))), success(Some("v")));
    assert_eq!(reply_to_get(Ok(None)), success(None));
    assert_eq!(reply_to_get(Err(CaveyError::DecodeError)), failure("malformed record or message"));
    assert_eq!(reply_to_write(Ok(())), success(None));
    assert_eq!(reply_to_write(Err(CaveyError::KeyNotFound)), failure("Key not found"));
    assert_eq!(
        reply_to_write(Err(CaveyError::IoError("disk full".to_owned()))),
        failure("disk full")
    );
}

#[test]
fn protocol_scenario() {
    let mut store = CaveyStore::new();
    assert_eq!(handle_message(&mut store, put("foo", "bar")), success(None));
    assert_eq!(handle_message(&mut store, get("foo")), success(Some("bar")));
    assert_eq!(handle_message(&mut store, get("missing")), success(None));
    assert_eq!(handle_message(&mut store, remove("missing")), failure("Key not found"));
    assert_eq!(handle_message(&mut store, remove("foo")), success(None));
    assert_eq!(handle_message(&mut store, get("foo")), success(None));
}

#[test]
fn protocol_scenario_in_bytes() {
    let mut store = CaveyStore::new();
    let exchanges = vec![
        (put("foo", "bar"), success(None)),
        (get("foo"), success(Some("bar"))),
        (get("missing"), success(None)),
        (remove("missing"), failure("Key not found")),
    ];
    for (request, reply) in exchanges {
        let incoming = encode_client(&request).unwrap();
        let outgoing = handle_connection(&mut store, &incoming).unwrap();
        assert_eq!(outgoing, encode_server(&reply).unwrap());
        assert_eq!(decode_server(&outgoing), Ok((reply, outgoing.len())));
    }
}

#[test]
fn a_request_that_cannot_be_read_leaves_the_store_alone() {
    let mut store = CaveyStore::new();
    store.put("k".to_owned(), "v".to_owned()).unwrap();
    let before = store.segment_bytes().clone();
    assert_eq!(handle_connection(&mut store, &[9, 9, 9, 9]), Err(CaveyError::DecodeError));
    assert_eq!(handle_connection(&mut store, &[]), Err(CaveyError::DecodeError));
    assert_eq!(store.segment_bytes(), &before);
}

#[test]
fn a_value_is_taken_from_a_success() {
    assert_eq!(receive_value(success(Some("bar"))), Ok(Some("bar".to_owned())));
    assert_eq!(receive_value(success(None)), Ok(None));
    assert_eq!(
        receive_value(failure("Key not found")),
        Err(CaveyError::Remote("Key not found".to_owned()))
    );
}

#[test]
fn a_write_expects_a_success_without_a_value() {
    assert_eq!(receive_empty(success(None)), Ok(()));
    assert_eq!(
        receive_empty(success(Some("bar"))),
        Err(CaveyError::UnexpectedResponse("bar".to_owned()))
    );
    assert_eq!(
        receive_empty(failure("Key not found")),
        Err(CaveyError::Remote("Key not found".to_owned()))
    );
}

#[test]
fn messages_compare_by_what_they_say() {
    assert_ne!(get("a"), remove("a"));
    assert_ne!(get("a"), get("b"));
    assert_ne!(put("a", "b"), put("a", "c"));
    assert_ne!(success(None), success(Some("")));
    assert_ne!(success(Some("a")), failure("a"));
    assert_eq!(failure("a"), failure("a"));
}
