use chrono::Utc;
use kvcache::codec::{ChunkDecoder, CHUNK_SIZE};
use kvcache::protocol::{find_header_end, parse_set_header, trim_terminator};
use kvcache::store::ShareMemory;

#[test]
fn shared_test_recv_n_get_data() {
    let mut share_memory = ShareMemory::new();
    let test_data = "a".repeat(1000);
    share_memory.put(
        "test_large_buffer".to_string(),
        test_data.clone(),
        300,
        Utc::now().timestamp(),
    );

    let response = share_memory.get_data("test_large_buffer");

    assert_eq!(response, format!("OK\r\n\r\n{}\r\n\r\n", test_data));
}

#[test]
fn shared_test_recv_n_get_data_chunked() {
    let mut share_memory = ShareMemory::new();
    let txt_b = "b".repeat(100);
    let txt_a = "a".repeat(CHUNK_SIZE);
    let test_data = txt_a.clone() + &txt_b;

    share_memory.put(
        "test_large_buffer".to_string(),
        test_data,
        300,
        Utc::now().timestamp(),
    );

    let response = share_memory.get_data("test_large_buffer");

    assert_eq!(
        response,
        format!(
            "OK\r\ntransfer-encoding: chunked\r\n\r\n{}\r\n{}\r\n{}\r\n{}\r\n0\r\n\r\n",
            CHUNK_SIZE,
            txt_a,
            txt_b.len(),
            txt_b
        )
    );
}

#[test]
fn shared_test_recv_n_get_data_multiple_chunks() {
    let mut share_memory = ShareMemory::new();
    let test_data = "a".repeat(4 * CHUNK_SIZE + 100);

    share_memory.put(
        "test_multiple_chunks".to_string(),
        test_data.clone(),
        300,
        Utc::now().timestamp(),
    );

    let response = share_memory.get_data("test_multiple_chunks");
    let mut expected_response = "OK\r\ntransfer-encoding: chunked\r\n\r\n".to_string();

    for _ in 0..4 {
        expected_response.push_str(&format!("{}\r\n", CHUNK_SIZE));
        expected_response.push_str(&"a".repeat(CHUNK_SIZE));
        expected_response.push_str("\r\n");
    }

    expected_response.push_str(&format!("100\r\n"));
    expected_response.push_str(&"a".repeat(100));
    expected_response.push_str("\r\n");
    expected_response.push_str("0\r\n\r\n");

    assert_eq!(response, expected_response);
}

#[test]
fn mod_test_recv_n_get_data() {
    let mut share_memory = ShareMemory::new();
    let test_data = "a".repeat(1000);
    share_memory.put(
        "test_large_buffer".to_string(),
        test_data.clone(),
        300,
        Utc::now().timestamp(),
    );

    let response = share_memory.get_data("test_large_buffer");

    assert_eq!(response, format!("OK\r\n\r\n{}\r\n\r\n", test_data));
}

#[test]
fn mod_test_recv_n_get_data_chunked() {
    let mut share_memory = ShareMemory::new();
    let txt_b = "b".repeat(100);
    let txt_a = "a".repeat(CHUNK_SIZE);
    let test_data = txt_a.clone() + &txt_b;

    share_memory.put(
        "test_large_buffer".to_string(),
        test_data,
        300,
        Utc::now().timestamp(),
    );

    let response = share_memory.get_data("test_large_buffer");

    assert_eq!(
        response,
        format!(
            "OK\r\ntransfer-encoding: chunked\r\n\r\n{}\r\n{}\r\n{}\r\n{}\r\n0\r\n\r\n",
            CHUNK_SIZE,
            txt_a,
            txt_b.len(),
            txt_b
        )
    );
}

#[test]
fn mod_test_recv_n_get_data_multiple_chunks() {
    let mut share_memory = ShareMemory::new();
    let test_data = "a".repeat(4 * CHUNK_SIZE + 100);

    share_memory.put(
        "test_multiple_chunks".to_string(),
        test_data.clone(),
        300,
        Utc::now().timestamp(),
    );

    let response = share_memory.get_data("test_multiple_chunks");
    let mut expected_response = "OK\r\ntransfer-encoding: chunked\r\n\r\n".to_string();

    for _ in 0..4 {
        expected_response.push_str(&format!("{}\r\n", CHUNK_SIZE));
        expected_response.push_str(&"a".repeat(CHUNK_SIZE));
        expected_response.push_str("\r\n");
    }

    expected_response.push_str(&format!("100\r\n"));
    expected_response.push_str(&"a".repeat(100));
    expected_response.push_str("\r\n");
    expected_response.push_str("0\r\n\r\n");

    assert_eq!(response, expected_response);
}

// ----- the exact large-value response -----

#[test]
fn five_thousand_chars_yield_two_exact_chunks() {
    let mut share_memory = ShareMemory::new();
    share_memory.put("big".to_string(), "a".repeat(5000), 300, 1_000);
    let response = share_memory.get_data_at("big", 1_000);
    let expected = format!(
        "OK\r\ntransfer-encoding: chunked\r\n\r\n4096\r\n{}\r\n904\r\n{}\r\n0\r\n\r\n",
        "a".repeat(4096),
        "a".repeat(904)
    );
    assert_eq!(response, expected);
}

#[test]
fn value_of_exactly_chunk_size_stays_plain() {
    let mut share_memory = ShareMemory::new();
    share_memory.put("edge".to_string(), "a".repeat(CHUNK_SIZE), 300, 1_000);
    let response = share_memory.get_data_at("edge", 1_000);
    assert_eq!(response, format!("OK\r\n\r\n{}\r\n\r\n", "a".repeat(CHUNK_SIZE)));

    share_memory.put("over".to_string(), "a".repeat(CHUNK_SIZE + 1), 300, 1_000);
    let response = share_memory.get_data_at("over", 1_000);
    let expected = format!(
        "OK\r\ntransfer-encoding: chunked\r\n\r\n4096\r\n{}\r\n1\r\na\r\n0\r\n\r\n",
        "a".repeat(4096)
    );
    assert_eq!(response, expected);
}

// ----- chunked ingest -----

#[test]
fn decoder_reconstructs_chunked_body_fed_byte_by_byte() {
    let stream = b"6\r\nfoobar\r\n0\r\n\r\n";
    let mut one_go = ChunkDecoder::new();
    one_go.push(stream);

    let mut dribble = ChunkDecoder::new();
    for b in stream.iter() {
        dribble.push(&[*b]);
    }

    assert!(one_go.is_done());
    assert!(dribble.is_done());
    assert_eq!(one_go.payload(), b"foobar".to_vec());
    assert_eq!(dribble.payload(), b"foobar".to_vec());
}

#[test]
fn decoder_reads_chunk_sizes_in_hexadecimal() {
    // two chunks of 1000 and 6000 bytes, sizes written in hex
    let data1 = "a".repeat(1000);
    let data2 = "b".repeat(6000);
    let stream = format!(
        "{:X}\r\n{}\r\n{:X}\r\n{}\r\n0\r\n\r\n",
        data1.len(),
        data1,
        data2.len(),
        data2
    );
    let mut decoder = ChunkDecoder::new();
    decoder.push(stream.as_bytes());
    assert!(decoder.is_done());
    assert_eq!(decoder.payload().len(), 1000 + 6000);
}

#[test]
fn decoder_size_lines_are_hexadecimal_not_decimal() {
    // the size line "10" promises sixteen bytes, not ten
    let mut decoder = ChunkDecoder::new();
    decoder.push(b"10\r\nabcdefghijklmnop\r\n0\r\n\r\n");
    assert!(decoder.is_done());
    assert_eq!(decoder.payload(), b"abcdefghijklmnop".to_vec());
}

#[test]
fn decoder_stops_at_unparsable_size_line() {
    let mut decoder = ChunkDecoder::new();
    decoder.push(b"3\r\nabc\r\nnot-hex\r\nrest");
    assert!(decoder.is_done());
    assert_eq!(decoder.payload(), b"abc".to_vec());
}

#[test]
fn decoder_waits_for_incomplete_chunk_data() {
    let mut decoder = ChunkDecoder::new();
    decoder.push(b"6\r\nfoo");
    assert!(!decoder.is_done());
    assert!(decoder.awaiting_chunk());
    decoder.push(b"bar\r\n0\r\n\r\n");
    assert!(decoder.is_done());
    assert_eq!(decoder.payload(), b"foobar".to_vec());
}

// ----- the connection path's set plumbing -----

#[test]
fn set_header_parses_key_duration_and_chunked_flag() {
    let header = "SET mykey\r\nduration: 42\r\nTransfer-Encoding: CHUNKED";
    let sh = parse_set_header(header, 300).unwrap();
    assert_eq!(sh.key, "mykey");
    assert_eq!(sh.ttl, 42);
    assert!(sh.chunked);

    let sh = parse_set_header("set k", 300).unwrap();
    assert_eq!(sh.key, "k");
    assert_eq!(sh.ttl, 300);
    assert!(!sh.chunked);

    assert!(parse_set_header("set", 300).is_none());
}

#[test]
fn header_end_is_first_terminator() {
    assert_eq!(find_header_end(b"set k\r\n\r\nbody"), Some(5));
    assert_eq!(find_header_end(b"set k\r\npartial"), None);
    assert_eq!(find_header_end(b"\r\n\r\n\r\n\r\n"), Some(0));
}

#[test]
fn trailing_terminator_is_stripped_once() {
    assert_eq!(trim_terminator("value\r\n\r\n"), "value");
    assert_eq!(trim_terminator("value\r\n"), "value\r\n");
    assert_eq!(trim_terminator("value\r\n\r\n\r\n\r\n"), "value\r\n\r\n");
    assert_eq!(trim_terminator("x"), "x");
}
