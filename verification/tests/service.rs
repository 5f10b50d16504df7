#![allow(dead_code)]

use serde_json::Value;
use std::collections::HashSet;
use vdb_rs::index_ivf_rq::{IvfRabitqIndex, Payload, RabitqConfig, RabitqQuantizer};
use vdb_rs::rabitq::encode_rotated;
use vdb_rs::search::{query_code, search, QueryCode, SearchOptions};
use vdb_rs::http_server;
use vdb_rs::http_server::{
    accept_body, answer_head, check_batch, route, search_options, HttpError, Method, Route,
    SearchDefaults, SearchRequest, MAX_K,
};
use vdb_rs::nng_server::{
    handle_batch_search, handle_ping, handle_search, insert_answer, message_length, parse_message,
    write_response, Request, CMD_BATCH_SEARCH, CMD_EXPORT_JSON, CMD_IMPORT_JSON, CMD_INSERT,
    CMD_PING, CMD_SEARCH, FLAG_FASTSCAN, FLAG_REFINE, RESP_ERR, RESP_OK,
};

fn bits(v: &[f32]) -> Vec<u32> {
    v.iter().map(|x| x.to_bits()).collect()
}

fn floats(v: &[u32]) -> Vec<f32> {
    v.iter().map(|x| f32::from_bits(*x)).collect()
}

fn gaussian_random() -> f32 {
    let u1 = rand::random::<f32>().max(1e-7);
    let u2 = rand::random::<f32>();
    (-2.0 * u1.ln()).sqrt() * (2.0 * std::f32::consts::PI * u2).cos()
}

fn gaussian_vector(dim: usize) -> Vec<f32> {
    (0..dim).map(|_| gaussian_random()).collect()
}

fn uniform_vector(dim: usize) -> Vec<f32> {
    (0..dim).map(|_| rand::random::<f32>()).collect()
}

fn dot(a: &[f32], b: &[f32]) -> f32 {
    a.iter().zip(b.iter()).map(|(x, y)| x * y).sum()
}

fn l2(a: &[f32], b: &[f32]) -> f32 {
    a.iter().zip(b.iter()).map(|(x, y)| (x - y) * (x - y)).sum()
}

/// A random orthogonal matrix, row by row, by Gram-Schmidt on its columns.
fn random_rotation(dim: usize) -> Vec<u32> {
    let mut columns: Vec<Vec<f32>> = Vec::new();
    for _ in 0..dim {
        let mut c: Vec<f32> = (0..dim).map(|_| rand::random::<f32>() * 2.0 - 1.0).collect();
        for p in &columns {
            let proj = dot(&c, p);
            for (x, y) in c.iter_mut().zip(p.iter()) {
                *x -= proj * y;
            }
        }
        let norm = dot(&c, &c).sqrt();
        for x in c.iter_mut() {
            *x /= norm;
        }
        columns.push(c);
    }
    let mut rows = Vec::with_capacity(dim * dim);
    for r in 0..dim {
        for c in &columns {
            rows.push(c[r].to_bits());
        }
    }
    rows
}

fn dist(a: &Vec<u32>, b: &Vec<u32>) -> u32 {
    let sum: f32 = a
        .iter()
        .zip(b.iter())
        .map(|(x, y)| {
            let d = f32::from_bits(*x) - f32::from_bits(*y);
            d * d
        })
        .sum();
    sum.to_bits()
}

fn rotate(rotation: &Vec<u32>, vector: &Vec<u32>) -> Vec<u32> {
    let dim = vector.len();
    let v = floats(vector);
    (0..dim)
        .map(|r| {
            let row = &rotation[r * dim..(r + 1) * dim];
            let mut sum = 0.0f32;
            for (x, y) in row.iter().zip(v.iter()) {
                sum += f32::from_bits(*x) * y;
            }
            sum.to_bits()
        })
        .collect()
}

fn corrections(rotated: &Vec<u32>, epsilon_0: u32) -> (u32, u32) {
    let r = floats(rotated);
    let norm_sq = dot(&r, &r);
    let beta = r.iter().map(|x| x.abs()).sum::<f32>() / (norm_sq.sqrt() + f32::from_bits(epsilon_0));
    (norm_sq.to_bits(), beta.to_bits())
}

fn norm(v: &Vec<u32>) -> u32 {
    let f = floats(v);
    dot(&f, &f).to_bits()
}

fn quantize(v: u32, lo: u32, hi: u32) -> u8 {
    let (v, lo, hi) = (f32::from_bits(v), f32::from_bits(lo), f32::from_bits(hi));
    let range = hi - lo;
    if range > 0.0 {
        ((v - lo) / range * 255.0).round() as u8
    } else {
        0
    }
}

fn restore(code: u8, lo: u32, hi: u32) -> u32 {
    let (lo, hi) = (f32::from_bits(lo), f32::from_bits(hi));
    (lo + (code as f32 / 255.0) * (hi - lo)).to_bits()
}

fn running_sums(weights: &Vec<u32>) -> Vec<u32> {
    let mut sum = 0.0f32;
    weights
        .iter()
        .map(|w| {
            sum += f32::from_bits(*w);
            sum.to_bits()
        })
        .collect()
}

fn draw(total: u32) -> u32 {
    (rand::random::<f32>() * f32::from_bits(total)).to_bits()
}

fn new_index(dim: usize) -> IvfRabitqIndex {
    IvfRabitqIndex::new(dim, random_rotation(dim))
}

fn insert(index: &mut IvfRabitqIndex, v: &[f32]) -> u64 {
    index.add(bits(v), &dist, &rotate, &corrections)
}

fn insert_with(index: &mut IvfRabitqIndex, v: &[f32], payload: Payload) -> u64 {
    index.add_with_payload(bits(v), payload, &dist, &rotate, &corrections)
}

fn build(vectors: &[Vec<f32>]) -> IvfRabitqIndex {
    let dim = vectors[0].len();
    let config = RabitqConfig::new(dim);
    let quantizer = RabitqQuantizer::from_rotation(config, random_rotation(dim));
    let all: Vec<Vec<u32>> = vectors.iter().map(|v| bits(v)).collect();
    let copy = all.clone();
    let mean = move |places: &Vec<usize>| -> Vec<u32> {
        let mut sum = vec![0.0f32; copy[0].len()];
        for p in places {
            for (s, x) in sum.iter_mut().zip(copy[*p].iter()) {
                *s += f32::from_bits(*x);
            }
        }
        let inv = 1.0 / places.len() as f32;
        sum.iter().map(|s| (s * inv).to_bits()).collect()
    };
    let config = RabitqConfig::new(dim);
    IvfRabitqIndex::build(
        all,
        config,
        quantizer,
        &dist,
        &mean,
        &running_sums,
        &draw,
        &rotate,
        &corrections,
        &norm,
        &quantize,
    )
}

fn estimate_of_signs(dim: usize, alpha: u32, beta: u32, h: u64, a: u32, b: u32) -> u32 {
    let s = dim as f32 - 2.0 * h as f32;
    let product = f32::from_bits(beta) * f32::from_bits(b) * s / dim as f32;
    (f32::from_bits(alpha) + f32::from_bits(a) - 2.0 * product).to_bits()
}

fn step(top: u32, levels: u8) -> u32 {
    (f32::from_bits(top) / levels as f32).to_bits()
}

fn level(v: u32, top: u32, levels: u8) -> u8 {
    let part = f32::from_bits(v).abs() / f32::from_bits(top) * levels as f32;
    (part.round() as u8).min(levels)
}

fn coded_query(index: &IvfRabitqIndex, query: &[f32], query_bits: u8) -> QueryCode {
    query_code(
        index,
        &bits(query),
        query_bits,
        &rotate,
        &corrections,
        &norm,
        &step,
        &level,
    )
}

fn run_search(index: &IvfRabitqIndex, query: &[f32], options: &SearchOptions) -> Vec<(u64, f32)> {
    let dim = index.config().dim;
    let rotated = rotate(index.rotation_matrix(), &bits(query));
    let r = floats(&rotated);
    let q_norm = dot(&r, &r);
    let (alpha, beta) = corrections(&rotated, index.quantizer().config().epsilon_0);
    let code = coded_query(index, query, options.query_bits);
    let (scale, total) = match &code {
        QueryCode::Quantized(q) => (f32::from_bits(q.scale), q.total_sum as f32),
        QueryCode::Signs(_) => (0.0, 0.0),
    };
    let by_signs = options.query_bits == 0;
    let route = |c: &Vec<u32>, n: u32| -> u32 {
        (q_norm + f32::from_bits(n) - 2.0 * dot(&r, &floats(c))).to_bits()
    };
    let estimate = |h: u64, a: u32, b: u32| -> u32 {
        if by_signs {
            estimate_of_signs(dim, alpha, beta, h, a, b)
        } else {
            let sum = 2.0 * h as f32 - total;
            let product = f32::from_bits(b) * scale * sum / dim as f32;
            (f32::from_bits(alpha) + f32::from_bits(a) - 2.0 * product).to_bits()
        }
    };
    let exact = |v: &Vec<u32>| -> u32 { l2(query, &floats(v)).to_bits() };
    search(index, &code, options, &route, &estimate, &exact, &restore)
        .into_iter()
        .map(|(id, d)| (id, f32::from_bits(d)))
        .collect()
}

fn estimate_search(index: &IvfRabitqIndex, query: &[f32], k: usize, nprobe: usize) -> Vec<(u64, f32)> {
    let dim = index.config().dim;
    let rotated = rotate(index.rotation_matrix(), &bits(query));
    let r = floats(&rotated);
    let q_norm = dot(&r, &r);
    let (alpha, beta) = corrections(&rotated, index.quantizer().config().epsilon_0);
    let code = QueryCode::Signs(encode_rotated(&rotated, alpha, beta));
    let route = |c: &Vec<u32>, n: u32| -> u32 {
        (q_norm + f32::from_bits(n) - 2.0 * dot(&r, &floats(c))).to_bits()
    };
    let estimate = |h: u64, a: u32, b: u32| -> u32 { estimate_of_signs(dim, alpha, beta, h, a, b) };
    index
        .search(&code, k, nprobe, &route, &estimate)
        .into_iter()
        .map(|(id, d)| (id, f32::from_bits(d)))
        .collect()
}

fn flat(index: &IvfRabitqIndex, query: &[f32], k: usize) -> Vec<(u64, f32)> {
    let exact = |v: &Vec<u32>| -> u32 { l2(query, &floats(v)).to_bits() };
    index
        .flat_search(k, &exact)
        .into_iter()
        .map(|(id, d)| (id, f32::from_bits(d)))
        .collect()
}

fn options(k: usize, nprobe: usize, refine: bool, refine_k: usize, fastscan: bool) -> SearchOptions {
    SearchOptions {
        k,
        nprobe,
        refine,
        refine_k,
        fastscan,
        query_bits: 0,
        sq8_refine: false,
        sql_filter: None,
    }
}

fn hits(results: &[(u64, f32)], truth: &[(u64, f32)]) -> usize {
    let truth: HashSet<u64> = truth.iter().map(|(id, _)| *id).collect();
    results.iter().filter(|(id, _)| truth.contains(id)).count()
}

/// A server of the binary protocol that holds an index of dimension 64.
struct Server {
    index: IvfRabitqIndex,
}

impl Server {
    fn start() -> Self {
        Server { index: new_index(64) }
    }

    fn answer(&mut self, msg: &[u8]) -> Result<Vec<u8>, String> {
        let find = |o: &SearchOptions, q: &Vec<u32>| -> Vec<(u64, u32)> {
            run_search(&self.index, &floats(q), o)
                .into_iter()
                .map(|(id, d)| (id, d.to_bits()))
                .collect()
        };
        match parse_message(msg).map_err(|e| e.message())? {
            Request::Ping => Ok(handle_ping()),
            Request::Search(s) => Ok(handle_search(&s, &find)),
            Request::BatchSearch(b) => Ok(handle_batch_search(&b, &find)),
            Request::Insert(v) => Ok(insert_answer(insert(&mut self.index, &floats(&v)))),
            Request::ImportJson(text) => {
                let value: Value = serde_json::from_slice(&text).map_err(|e| e.to_string())?;
                let rows = value.get("vectors").and_then(|v| v.as_array()).ok_or("no vectors")?;
                for row in rows {
                    let v: Vec<f32> = row
                        .as_array()
                        .ok_or("no row")?
                        .iter()
                        .map(|x| x.as_f64().unwrap() as f32)
                        .collect();
                    insert(&mut self.index, &v);
                }
                Ok(insert_answer(rows.len() as u64))
            }
            Request::ExportJson => {
                let vectors: Vec<Option<Vec<f32>>> = (0..self.index.len() as u64)
                    .map(|id| self.index.raw_vector(id).map(|v| floats(v)))
                    .collect();
                serde_json::to_vec(&vectors).map_err(|e| e.to_string())
            }
        }
    }

    /// The response to a command, read as a client reads it.
    fn send(&mut self, cmd: u8, payload: &[u8]) -> (u8, Vec<u8>) {
        let mut msg = vec![cmd];
        msg.extend_from_slice(payload);
        let head = (msg.len() as u32).to_le_bytes();
        assert_eq!(message_length(&head), Some(msg.len()));
        let response = match self.answer(&msg) {
            Ok(data) => write_response(RESP_OK, &data),
            Err(e) => write_response(RESP_ERR, e.as_bytes()),
        };
        let len = u32::from_le_bytes(response[0..4].try_into().unwrap()) as usize;
        assert_eq!(response.len(), 4 + len);
        (response[4], response[5..].to_vec())
    }
}

fn number_bytes(v: &[f32]) -> Vec<u8> {
    v.iter().flat_map(|f| f.to_le_bytes()).collect()
}

fn words(ws: &[u32]) -> Vec<u8> {
    ws.iter().flat_map(|w| w.to_le_bytes()).collect()
}

fn row(i: usize) -> Vec<f32> {
    (0..64).map(|j| (i * 64 + j) as f32).collect()
}

fn insert_rows(server: &mut Server, n: usize) {
    for i in 0..n {
        let mut payload = words(&[64]);
        payload.extend(number_bytes(&row(i)));
        let (code, _) = server.send(CMD_INSERT, &payload);
        assert_eq!(code, RESP_OK);
    }
}

#[test]
fn e2e_nng_ping() {
    let mut server = Server::start();
    let (code, data) = server.send(CMD_PING, &[]);
    assert_eq!(code, RESP_OK);
    assert!(data.is_empty());
}

#[test]
fn e2e_nng_insert_and_search() {
    let mut server = Server::start();
    let vector: Vec<f32> = (0..64).map(|i| i as f32).collect();
    let mut payload = words(&[64]);
    payload.extend(number_bytes(&vector));
    let (code, data) = server.send(CMD_INSERT, &payload);
    assert_eq!(code, RESP_OK);
    assert_eq!(u64::from_le_bytes(data[..8].try_into().unwrap()), 0);

    let mut search_payload = words(&[10, 0, 64]);
    search_payload.extend(number_bytes(&vector));
    let (code2, data2) = server.send(CMD_SEARCH, &search_payload);
    assert_eq!(code2, RESP_OK);
    assert!(!data2.is_empty());
    let first_id = u64::from_le_bytes(data2[0..8].try_into().unwrap());
    assert_eq!(first_id, 0);
}

#[test]
fn e2e_nng_export_json() {
    let mut server = Server::start();
    let (code, data) = server.send(CMD_EXPORT_JSON, &[]);
    assert_eq!(code, RESP_OK);
    let exported: Value = serde_json::from_slice(&data).unwrap();
    assert!(exported.is_array());
}

#[test]
fn e2e_nng_batch_search() {
    let mut server = Server::start();
    insert_rows(&mut server, 5);
    let num_queries = 2u32;
    let mut batch_payload = words(&[3, 0, 64, num_queries]);
    for i in 0..2 {
        batch_payload.extend(number_bytes(&row(i)));
    }
    let (code, data) = server.send(CMD_BATCH_SEARCH, &batch_payload);
    assert_eq!(code, RESP_OK);
    assert!(!data.is_empty());
    let returned_queries = u32::from_le_bytes(data[0..4].try_into().unwrap());
    assert_eq!(returned_queries, num_queries);
}

#[test]
fn e2e_nng_import_json() {
    let vectors: Vec<Vec<f32>> = (0..4).map(row).collect();
    let mut object = Payload::new();
    object.insert("vectors".to_string(), serde_json::to_value(&vectors).unwrap());
    let payload = serde_json::to_vec(&object).unwrap();

    let mut server = Server::start();
    let (code, data) = server.send(CMD_IMPORT_JSON, &payload);
    assert_eq!(code, RESP_OK);
    let count = u32::from_le_bytes(data[..4].try_into().unwrap());
    assert_eq!(count, 4);

    let (code2, data2) = server.send(CMD_EXPORT_JSON, &[]);
    assert_eq!(code2, RESP_OK);
    let exported: Vec<Option<Vec<f32>>> = serde_json::from_slice(&data2).unwrap();
    assert_eq!(exported.len(), 4);
}

#[test]
fn e2e_nng_search_with_options() {
    let mut server = Server::start();
    insert_rows(&mut server, 1);
    let flags = FLAG_REFINE | FLAG_FASTSCAN;
    let mut search_payload = words(&[10, 0, flags]);
    search_payload.push(4u8);
    search_payload.extend(words(&[64]));
    search_payload.extend(number_bytes(&row(0)));
    let (code2, data2) = server.send(CMD_SEARCH, &search_payload);
    assert_eq!(code2, RESP_OK);
    assert!(!data2.is_empty());
    let first_id = u64::from_le_bytes(data2[0..8].try_into().unwrap());
    assert_eq!(first_id, 0);
}

#[test]
fn e2e_nng_batch_search_with_options() {
    let mut server = Server::start();
    insert_rows(&mut server, 5);
    let flags = FLAG_REFINE | FLAG_FASTSCAN;
    let mut batch_payload = words(&[3, 0, flags]);
    batch_payload.push(4u8);
    batch_payload.extend(words(&[64, 2]));
    for i in 0..2 {
        batch_payload.extend(number_bytes(&row(i)));
    }
    let (code, data) = server.send(CMD_BATCH_SEARCH, &batch_payload);
    assert_eq!(code, RESP_OK);
    assert!(!data.is_empty());
    let returned_queries = u32::from_le_bytes(data[0..4].try_into().unwrap());
    assert_eq!(returned_queries, 2);
}

#[test]
fn a_request_that_is_not_known_is_refused() {
    let mut server = Server::start();
    let (code, data) = server.send(0x7F, &[]);
    assert_eq!(code, RESP_ERR);
    assert_eq!(data, b"unknown command");
    let (code, data) = server.send(CMD_INSERT, &[64, 0]);
    assert_eq!(code, RESP_ERR);
    assert_eq!(data, b"insert payload too short");
}

/// The options of a request for `k` results.
fn request_for(k: usize) -> SearchRequest {
    SearchRequest {
        k: Some(k),
        nprobe: Some(0),
        refine: None,
        refine_k: None,
        fastscan: None,
        query_bits: None,
        sq8_refine: None,
        sql_filter: None,
    }
}

#[test]
fn server_health_returns_ok() {
    let r = route(Method::Get, "/health");
    assert_eq!(r, Route::Health);
    assert_eq!(answer_head(r).0, 200);
}

#[test]
fn server_insert_and_search_roundtrip() {
    let mut index = new_index(64);
    let vector = row(0);
    let r = route(Method::Post, "/insert");
    assert_eq!(r, Route::Insert);
    assert_eq!(answer_head(r).0, 200);
    assert_eq!(insert(&mut index, &vector), 0);

    let r = route(Method::Post, "/search");
    assert_eq!(r, Route::Search);
    let options = search_options(request_for(5), &SearchDefaults::default()).unwrap();
    let results = run_search(&index, &vector, &options);
    assert_eq!(answer_head(r).0, 200);
    assert!(results.iter().any(|(id, _)| *id == 0));
}

#[test]
fn server_batch_insert_roundtrip() {
    let mut index = new_index(64);
    let r = route(Method::Post, "/batch_insert");
    assert_eq!(r, Route::BatchInsert);
    assert_eq!(check_batch(3, Some(3)), Ok(()));
    let mut ids = Vec::new();
    for i in 0..3 {
        let mut payload = Payload::new();
        payload.insert("idx".to_string(), Value::from(i));
        ids.push(insert_with(&mut index, &row(i), payload));
    }
    assert_eq!(answer_head(r).0, 200);
    assert_eq!(ids, vec![0, 1, 2]);

    let options = search_options(request_for(3), &SearchDefaults::default()).unwrap();
    let results = run_search(&index, &row(1), &options);
    assert_eq!(results.len(), 3);
    assert_eq!(results[0].0, 1);
}

#[test]
fn server_stats_endpoint() {
    let r = route(Method::Get, "/stats");
    assert_eq!(r, Route::Stats);
    assert_eq!(answer_head(r).0, 200);
    let index = new_index(64);
    assert_eq!((index.len(), index.config().dim), (0, 64));
}

#[test]
fn server_413_on_large_body() {
    assert!(!accept_body(17 * 1024 * 1024));
}

fn routing(rotated: &Vec<u32>) -> Box<dyn Fn(&Vec<u32>, u32) -> u32> {
    let r = floats(rotated);
    let q_norm = dot(&r, &r);
    Box::new(move |c: &Vec<u32>, n: u32| -> u32 {
        (q_norm + f32::from_bits(n) - 2.0 * dot(&r, &floats(c))).to_bits()
    })
}

fn estimating(code: &QueryCode) -> Box<dyn Fn(u64, u32, u32) -> u32> {
    match code {
        QueryCode::Signs(c) => {
            let (dim, alpha, beta) = (c.bits.len() * 8, c.alpha, c.beta);
            Box::new(move |h: u64, a: u32, b: u32| -> u32 {
                estimate_of_signs(dim, alpha, beta, h, a, b)
            })
        }
        QueryCode::Quantized(c) => {
            let dim = c.bits.len() * 8;
            let (alpha, scale) = (f32::from_bits(c.alpha), f32::from_bits(c.scale));
            let total = c.total_sum as f32;
            Box::new(move |h: u64, a: u32, b: u32| -> u32 {
                let sum = 2.0 * h as f32 - total;
                let product = f32::from_bits(b) * scale * sum / dim as f32;
                (alpha + f32::from_bits(a) - 2.0 * product).to_bits()
            })
        }
    }
}

fn measuring(query: &Vec<u32>) -> Box<dyn Fn(&Vec<u32>) -> u32> {
    let q = floats(query);
    Box::new(move |v: &Vec<u32>| -> u32 { l2(&q, &floats(v)).to_bits() })
}

fn answer(
    index: &IvfRabitqIndex,
    query: &[f32],
    request: SearchRequest,
    defaults: &SearchDefaults,
) -> Result<Vec<(u64, f32)>, HttpError> {
    let found = http_server::handle_search(
        index,
        &bits(query),
        request,
        defaults,
        &rotate,
        &corrections,
        &norm,
        &step,
        &level,
        &routing,
        &estimating,
        &measuring,
        &restore,
    );
    found.map(|r| r.into_iter().map(|(id, d)| (id, f32::from_bits(d))).collect())
}

#[test]
fn a_search_gives_no_more_than_the_server_allows() {
    let mut index = new_index(64);
    for i in 0..300 {
        let mut payload = Payload::new();
        payload.insert("idx".to_string(), Value::from(i));
        insert_with(&mut index, &gaussian_vector(64), payload);
    }
    let query = gaussian_vector(64);
    let defaults = SearchDefaults::default();
    let results = answer(&index, &query, request_for(1000), &defaults).unwrap();
    assert_eq!(results.len(), MAX_K);
    assert_eq!(results, run_search(&index, &query, &options(256, 0, true, 100, true)));
    let results = answer(&index, &query, request_for(7), &defaults).unwrap();
    assert_eq!(results, run_search(&index, &query, &options(7, 0, true, 100, true)));

    let mut request = request_for(20);
    request.query_bits = Some(8);
    request.refine = Some(false);
    request.sql_filter = Some("idx >= 290".to_string());
    let mut o = options(20, 0, false, 100, true);
    o.query_bits = 8;
    o.sql_filter = Some("idx >= 290".to_string());
    let results = answer(&index, &query, request, &defaults).unwrap();
    assert_eq!(results.len(), 10);
    assert_eq!(results, run_search(&index, &query, &o));

    let mut request = request_for(0);
    request.k = None;
    assert_eq!(answer(&index, &query, request, &defaults).unwrap().len(), 10);
    assert_eq!(index.len(), 300);
}

#[test]
fn a_search_for_nothing_is_refused() {
    let index = new_index(64);
    let e = answer(&index, &[], request_for(0), &SearchDefaults::default()).unwrap_err();
    assert_eq!(e, HttpError::ZeroK);
    assert_eq!((e.status(), e.message()), (400, "k must be > 0"));
}
