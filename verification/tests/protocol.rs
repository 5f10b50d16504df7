use vdb_rs::address::{split_address, AddressError};
use vdb_rs::http_server::{
    accept_body, answer_head, check_batch, default_k, default_refine, default_refine_k, route,
    search_options, status_reason, HttpError, Method, Page, Route, SearchDefaults, SearchRequest,
};
use vdb_rs::nng_server::{
    handle_batch_search, handle_ping, handle_search, insert_answer, message_length, parse_message,
    read_f32s, serialize_results, write_response, Request, RequestError, CMD_BATCH_SEARCH,
    CMD_EXPORT_JSON, CMD_IMPORT_JSON, CMD_INSERT, CMD_PING, CMD_SEARCH, FLAG_FASTSCAN, FLAG_REFINE,
    FLAG_SQ8_REFINE, RESP_ERR, RESP_OK,
};
use vdb_rs::search::SearchOptions;

fn number_bytes(v: &[f32]) -> Vec<u8> {
    v.iter().flat_map(|f| f.to_le_bytes()).collect()
}

fn message(cmd: u8, words: &[u32], numbers: &[f32]) -> Vec<u8> {
    let mut m = vec![cmd];
    for w in words {
        m.extend_from_slice(&w.to_le_bytes());
    }
    m.extend_from_slice(&number_bytes(numbers));
    m
}

fn empty_request() -> SearchRequest {
    SearchRequest {
        k: None,
        nprobe: None,
        refine: None,
        refine_k: None,
        fastscan: None,
        query_bits: None,
        sq8_refine: None,
        sql_filter: None,
    }
}

#[test]
fn test_serialize_results() {
    let r = vec![(1u64, 0.5f32.to_bits()), (2u64, 1.5f32.to_bits())];
    let bytes = serialize_results(&r);
    assert_eq!(bytes.len(), 24);
    assert_eq!(u64::from_le_bytes(bytes[0..8].try_into().unwrap()), 1);
    assert_eq!(f32::from_le_bytes(bytes[20..24].try_into().unwrap()), 1.5);
}

#[test]
fn test_read_f32s() {
    let v = vec![1.0f32, 2.0f32];
    let bytes = number_bytes(&v);
    let decoded = read_f32s(&bytes, 2).unwrap();
    let decoded: Vec<f32> = decoded.into_iter().map(f32::from_bits).collect();
    assert_eq!(decoded, v);
    assert_eq!(read_f32s(&bytes, 3), Err(RequestError::NumbersLength));
    assert_eq!(read_f32s(&bytes[1..], 2), Err(RequestError::NumbersLength));
}

#[test]
fn a_response_is_framed() {
    assert_eq!(write_response(RESP_OK, &handle_ping()), vec![1, 0, 0, 0, 0]);
    assert_eq!(write_response(RESP_ERR, b"no"), vec![3, 0, 0, 0, 255, b'n', b'o']);
    assert_eq!(insert_answer(258), vec![2, 1, 0, 0, 0, 0, 0, 0]);
}

#[test]
fn lengths_of_messages_are_limited() {
    assert_eq!(message_length(&0u32.to_le_bytes()), None);
    assert_eq!(message_length(&1u32.to_le_bytes()), Some(1));
    assert_eq!(message_length(&(16u32 * 1024 * 1024).to_le_bytes()), Some(16 * 1024 * 1024));
    assert_eq!(message_length(&(16u32 * 1024 * 1024 + 1).to_le_bytes()), None);
}

#[test]
fn simple_requests_are_read() {
    assert!(matches!(parse_message(&[CMD_PING]), Ok(Request::Ping)));
    assert!(matches!(parse_message(&[CMD_EXPORT_JSON]), Ok(Request::ExportJson)));
    match parse_message(&[CMD_IMPORT_JSON, b'[', b']']) {
        Ok(Request::ImportJson(text)) => assert_eq!(text, b"[]"),
        _ => panic!("no import"),
    }
    assert_eq!(parse_message(&[9]).err(), Some(RequestError::UnknownCommand));
}

#[test]
fn an_insertion_is_read() {
    match parse_message(&message(CMD_INSERT, &[2], &[1.5, -3.0])) {
        Ok(Request::Insert(v)) => assert_eq!(v, vec![1.5f32.to_bits(), (-3.0f32).to_bits()]),
        _ => panic!("no insertion"),
    }
    assert_eq!(parse_message(&[CMD_INSERT, 1]).err(), Some(RequestError::InsertTooShort));
    let long = message(CMD_INSERT, &[1], &[1.0, 2.0]);
    assert_eq!(parse_message(&long).err(), Some(RequestError::InsertLength));
}

#[test]
fn a_search_is_read_in_both_forms() {
    match parse_message(&message(CMD_SEARCH, &[10, 3, 2], &[1.0, 2.0])) {
        Ok(Request::Search(s)) => {
            assert_eq!((s.options.k, s.options.nprobe, s.options.refine_k), (10, 3, 100));
            assert!(!s.options.refine && s.options.fastscan && !s.options.sq8_refine);
            assert_eq!(s.options.query_bits, 0);
            assert_eq!(s.query, vec![1.0f32.to_bits(), 2.0f32.to_bits()]);
        }
        _ => panic!("no search"),
    }
    let mut m = message(CMD_SEARCH, &[10, 0, FLAG_REFINE | FLAG_SQ8_REFINE], &[]);
    m.push(4);
    m.extend_from_slice(&1u32.to_le_bytes());
    m.extend_from_slice(&number_bytes(&[7.0]));
    match parse_message(&m) {
        Ok(Request::Search(s)) => {
            assert!(s.options.refine && !s.options.fastscan && s.options.sq8_refine);
            assert_eq!(s.options.query_bits, 4);
            assert_eq!(s.query, vec![7.0f32.to_bits()]);
        }
        _ => panic!("no search"),
    }
    assert_eq!(parse_message(&[CMD_SEARCH]).err(), Some(RequestError::SearchTooShort));
    let short = message(CMD_SEARCH, &[10, 0, 3], &[1.0]);
    assert_eq!(parse_message(&short).err(), Some(RequestError::SearchLength));
}

#[test]
fn a_batch_is_read_in_both_forms() {
    match parse_message(&message(CMD_BATCH_SEARCH, &[3, 0, 2, 2], &[1.0, 2.0, 3.0, 4.0])) {
        Ok(Request::BatchSearch(b)) => {
            assert_eq!((b.dim, b.num_queries, b.queries.len()), (2, 2, 4));
            assert_eq!(b.options.k, 3);
        }
        _ => panic!("no batch"),
    }
    let mut m = message(CMD_BATCH_SEARCH, &[3, 0, FLAG_FASTSCAN], &[]);
    m.push(8);
    m.extend_from_slice(&2u32.to_le_bytes());
    m.extend_from_slice(&1u32.to_le_bytes());
    m.extend_from_slice(&number_bytes(&[1.0, 2.0]));
    match parse_message(&m) {
        Ok(Request::BatchSearch(b)) => {
            assert_eq!((b.dim, b.num_queries, b.options.query_bits), (2, 1, 8));
            assert!(!b.options.refine && b.options.fastscan);
        }
        _ => panic!("no batch"),
    }
    assert_eq!(parse_message(&[CMD_BATCH_SEARCH]).err(), Some(RequestError::BatchTooShort));
    let short = message(CMD_BATCH_SEARCH, &[3, 0, 2, 2], &[1.0]);
    assert_eq!(parse_message(&short).err(), Some(RequestError::BatchLength));
}

#[test]
fn searches_are_answered() {
    let find = |o: &SearchOptions, q: &Vec<u32>| -> Vec<(u64, u32)> {
        (0..o.k as u64).map(|i| (i, q[0])).collect()
    };
    match parse_message(&message(CMD_SEARCH, &[2, 0, 1], &[0.5])) {
        Ok(Request::Search(s)) => {
            let data = handle_search(&s, &find);
            assert_eq!(data.len(), 24);
            assert_eq!(data[8..12], 0.5f32.to_le_bytes());
            assert_eq!(data[12..20], 1u64.to_le_bytes());
        }
        _ => panic!("no search"),
    }
    match parse_message(&message(CMD_BATCH_SEARCH, &[1, 0, 1, 2], &[0.5, 2.0])) {
        Ok(Request::BatchSearch(b)) => {
            let data = handle_batch_search(&b, &find);
            assert_eq!(data.len(), 4 + 2 * 16);
            assert_eq!(data[0..4], 2u32.to_le_bytes());
            assert_eq!(data[4..8], 1u32.to_le_bytes());
            assert_eq!(data[16..20], 0.5f32.to_le_bytes());
            assert_eq!(data[32..36], 2.0f32.to_le_bytes());
        }
        _ => panic!("no batch"),
    }
}

#[test]
fn request_errors_have_messages() {
    assert_eq!(RequestError::UnknownCommand.message(), "unknown command");
    assert_eq!(RequestError::SearchTooShort.message(), "search payload too short");
    assert_eq!(RequestError::SearchLength.message(), "search payload length mismatch");
    assert_eq!(RequestError::BatchTooShort.message(), "batch search payload too short");
    assert_eq!(RequestError::BatchLength.message(), "batch search payload length mismatch");
    assert_eq!(RequestError::InsertTooShort.message(), "insert payload too short");
    assert_eq!(RequestError::InsertLength.message(), "insert payload length mismatch");
    assert_eq!(RequestError::NumbersLength.message(), "f32 slice length mismatch");
}

#[test]
fn requests_are_routed() {
    assert_eq!(route(Method::Options, "/search"), Route::Preflight);
    assert_eq!(route(Method::Get, "/health"), Route::Health);
    assert_eq!(route(Method::Get, "/"), Route::Static(Page::Index));
    assert_eq!(route(Method::Get, "/app.js"), Route::Static(Page::Script));
    assert_eq!(route(Method::Get, "/style.css"), Route::Static(Page::Style));
    assert_eq!(route(Method::Get, "/stats"), Route::Stats);
    assert_eq!(route(Method::Post, "/search"), Route::Search);
    assert_eq!(route(Method::Post, "/insert"), Route::Insert);
    assert_eq!(route(Method::Post, "/batch_insert"), Route::BatchInsert);
    assert_eq!(route(Method::Post, "/stats"), Route::NotFound);
    assert_eq!(route(Method::Get, "/search"), Route::NotFound);
    assert_eq!(route(Method::Other, "/health"), Route::NotFound);
}

#[test]
fn answers_have_heads() {
    assert_eq!(answer_head(Route::Preflight), (204, "text/plain"));
    assert_eq!(answer_head(Route::Static(Page::Index)), (200, "text/html"));
    assert_eq!(answer_head(Route::Static(Page::Script)), (200, "application/javascript"));
    assert_eq!(answer_head(Route::Static(Page::Style)), (200, "text/css"));
    assert_eq!(answer_head(Route::NotFound), (404, "application/json"));
    assert_eq!(answer_head(Route::Search), (200, "application/json"));
    let reasons = [
        (200, "OK"),
        (204, "No Content"),
        (400, "Bad Request"),
        (404, "Not Found"),
        (413, "Payload Too Large"),
        (500, "Internal Server Error"),
        (418, "Unknown"),
    ];
    for (status, reason) in reasons {
        assert_eq!(status_reason(status), reason);
    }
}

#[test]
fn server_k_limit_enforced() {
    let mut request = empty_request();
    request.k = Some(1000);
    assert_eq!(search_options(request, &SearchDefaults::default()).unwrap().k, 256);
    let mut request = empty_request();
    request.k = Some(0);
    let e = search_options(request, &SearchDefaults::default()).err().unwrap();
    assert_eq!((e.status(), e.message()), (400, "k must be > 0"));
}

#[test]
fn what_a_search_does_not_say_is_taken_from_the_server() {
    assert_eq!((default_k(), default_refine(), default_refine_k()), (10, true, 100));
    let o = search_options(empty_request(), &SearchDefaults::default()).unwrap();
    assert_eq!((o.k, o.nprobe, o.refine, o.refine_k), (10, 0, true, 100));
    assert!(o.fastscan && !o.sq8_refine && o.query_bits == 0 && o.sql_filter.is_none());
    let defaults = SearchDefaults {
        k: 5,
        nprobe: 100,
        refine: false,
        refine_k: 5000,
        fastscan: false,
        query_bits: 8,
        sq8_refine: true,
    };
    let mut request = empty_request();
    request.nprobe = Some(3);
    request.fastscan = Some(true);
    request.sql_filter = Some("a = 1".to_string());
    let o = search_options(request, &defaults).unwrap();
    assert_eq!((o.k, o.nprobe, o.refine, o.refine_k), (5, 3, false, 5000));
    assert!(o.fastscan && o.sq8_refine && o.query_bits == 8);
    assert_eq!(o.sql_filter, Some("a = 1".to_string()));
}

#[test]
fn server_batch_insert_payload_length_mismatch() {
    let e = check_batch(3, Some(1)).unwrap_err();
    assert_eq!(e.status(), 400);
    assert_eq!(e.message(), "vectors and payloads length mismatch");
    assert_eq!(check_batch(3, Some(3)), Ok(()));
    assert_eq!(check_batch(3, None), Ok(()));
    assert_eq!((HttpError::NotFound.status(), HttpError::NotFound.message()), (404, "not found"));
}

#[test]
fn large_bodies_are_not_read() {
    assert!(!accept_body(0));
    assert!(accept_body(16 * 1024 * 1024));
    assert!(!accept_body(16 * 1024 * 1024 + 1));
}

#[test]
fn addresses_are_split() {
    assert_eq!(split_address("0.0.0.0:9090"), Ok(("0.0.0.0".to_string(), 9090)));
    assert_eq!(split_address("::1:+80"), Ok(("::1".to_string(), 80)));
    assert_eq!(split_address("host:00065535"), Ok(("host".to_string(), 65535)));
    assert_eq!(split_address("localhost"), Err(AddressError::Address));
    for text in ["a:", "a:+", "a:65536", "a:-1", "a:8 0", "a:99999999999999999999"] {
        assert_eq!(split_address(text), Err(AddressError::Port), "{}", text);
    }
    assert_eq!(AddressError::Address.message(), "invalid address");
    assert_eq!(AddressError::Port.message(), "invalid port");
}

#[test]
fn results_are_read_back() {
    let results = vec![(u64::MAX, 1.25f32.to_bits()), (7, f32::MAX.to_bits())];
    let bytes = serialize_results(&results);
    let back: Vec<(u64, u32)> = bytes
        .chunks_exact(12)
        .map(|c| {
            let id = u64::from_le_bytes(c[..8].try_into().unwrap());
            (id, u32::from_le_bytes(c[8..].try_into().unwrap()))
        })
        .collect();
    assert_eq!(back, results);
}
