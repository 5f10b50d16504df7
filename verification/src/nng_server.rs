//! The binary protocol: messages, requests and responses.
//!
//! A message is `[4 bytes length][1 byte command][payload]`, a response
//! `[4 bytes length][1 byte code][data]`. Numbers are little-endian.

use crate::blocks;
use crate::little_endian;
use crate::search::SearchOptions;
use crate::storage_format;
use vstd::prelude::*;
use vstd::slice::slice_subrange;

verus! {

/// The code of a response to a request that was served.
pub const RESP_OK: u8 = 0x00;

/// The code of a response to a request that was not served.
pub const RESP_ERR: u8 = 0xFF;

pub const CMD_PING: u8 = 0x01;

pub const CMD_SEARCH: u8 = 0x02;

pub const CMD_BATCH_SEARCH: u8 = 0x03;

pub const CMD_INSERT: u8 = 0x04;

pub const CMD_IMPORT_JSON: u8 = 0x05;

pub const CMD_EXPORT_JSON: u8 = 0x06;

/// The most bytes that a message may have behind its length.
pub const MAX_MESSAGE: u32 = 16_777_216;

/// The flag of a search that measures its best candidates again.
pub const FLAG_REFINE: u32 = 1;

/// The flag of a search that compares codes in batches.
pub const FLAG_FASTSCAN: u32 = 2;

/// The flag of a search that measures again by SQ8 codes.
pub const FLAG_SQ8_REFINE: u32 = 4;

/// Why a request is not served.
#[derive(Debug, Clone, Copy, PartialEq, Eq, Structural)]
pub enum RequestError {
    UnknownCommand,
    SearchTooShort,
    SearchLength,
    BatchTooShort,
    BatchLength,
    InsertTooShort,
    InsertLength,
    NumbersLength,
}

/// The message of an error.
pub open spec fn request_error_text(e: RequestError) -> Seq<char> {
    match e {
        RequestError::UnknownCommand => "unknown command"@,
        RequestError::SearchTooShort => "search payload too short"@,
        RequestError::SearchLength => "search payload length mismatch"@,
        RequestError::BatchTooShort => "batch search payload too short"@,
        RequestError::BatchLength => "batch search payload length mismatch"@,
        RequestError::InsertTooShort => "insert payload too short"@,
        RequestError::InsertLength => "insert payload length mismatch"@,
        RequestError::NumbersLength => "f32 slice length mismatch"@,
    }
}

impl RequestError {
    /// The message of the error.
    pub fn message(self) -> (m: String)
        ensures
            m@ == request_error_text(self),
    {
        match self {
            RequestError::UnknownCommand => "unknown command".to_owned(),
            RequestError::SearchTooShort => "search payload too short".to_owned(),
            RequestError::SearchLength => "search payload length mismatch".to_owned(),
            RequestError::BatchTooShort => "batch search payload too short".to_owned(),
            RequestError::BatchLength => "batch search payload length mismatch".to_owned(),
            RequestError::InsertTooShort => "insert payload too short".to_owned(),
            RequestError::InsertLength => "insert payload length mismatch".to_owned(),
            RequestError::NumbersLength => "f32 slice length mismatch".to_owned(),
        }
    }
}

/// The length of a message may be served.
pub open spec fn acceptable(len: nat) -> bool {
    0 < len <= MAX_MESSAGE
}

/// The length that a message says it has; none where no such message is served.
pub fn message_length(head: &[u8]) -> (len: Option<usize>)
    requires
        head@.len() == 4,
    ensures
        match len {
            Some(n) => acceptable(little_endian::le_value(head@)) && n == little_endian::le_value(
                head@,
            ),
            None => !acceptable(little_endian::le_value(head@)),
        },
{
    assert(head@.subrange(0, 4) =~= head@);
    let n: u32 = little_endian::read_u32(head, 0);
    if n == 0 || n > MAX_MESSAGE {
        None
    } else {
        Some(n as usize)
    }
}

/// A response as bytes.
pub open spec fn response_bytes(code: u8, data: Seq<u8>) -> Seq<u8> {
    little_endian::le_bytes(1 + data.len(), 4) + seq![code] + data
}

/// A response as bytes.
pub fn write_response(code: u8, data: &[u8]) -> (out: Vec<u8>)
    requires
        data@.len() < u32::MAX,
    ensures
        out@ == response_bytes(code, data@),
{
    let mut out: Vec<u8> = Vec::with_capacity(5);
    let len: u32 = 1 + data.len() as u32;
    little_endian::push_u32(&mut out, len);
    out.push(code);
    blocks::push_bytes(&mut out, data);
    assert(out@ =~= response_bytes(code, data@));
    out
}

/// Numbers by their bits, as many as there are.
pub fn read_f32s(bytes: &[u8], dim: usize) -> (r: Result<Vec<u32>, RequestError>)
    ensures
        match r {
            Ok(words) => bytes@.len() == 4 * dim && words@ == blocks::bytes_to_words(bytes@),
            Err(e) => bytes@.len() != 4 * dim && e == RequestError::NumbersLength,
        },
{
    if bytes.len() % 4 != 0 || bytes.len() / 4 != dim {
        return Err(RequestError::NumbersLength);
    }
    Ok(blocks::read_words(bytes))
}

/// A result as bytes: the id and the distance.
pub open spec fn result_bytes(result: (u64, u32)) -> Seq<u8> {
    little_endian::le_bytes(result.0 as nat, 8) + little_endian::le_bytes(result.1 as nat, 4)
}

/// The results as blocks of bytes.
pub open spec fn result_blocks(results: Seq<(u64, u32)>) -> Seq<Seq<u8>> {
    results.map_values(|r: (u64, u32)| result_bytes(r))
}

/// Results as bytes.
pub fn serialize_results(results: &[(u64, u32)]) -> (out: Vec<u8>)
    ensures
        out@ == blocks::joined(result_blocks(results@)),
        out@.len() == 12 * results@.len(),
{
    let mut out: Vec<u8> = Vec::new();
    let ghost all = result_blocks(results@);
    let mut i: usize = 0;
    assert(all.take(0) =~= Seq::empty());
    while i < results.len()
        invariant
            i <= results@.len(),
            all == result_blocks(results@),
            out@ == blocks::joined(all.take(i as int)),
            out@.len() == 12 * i,
        decreases results@.len() - i,
    {
        let ghost before = out@;
        little_endian::push_u64(&mut out, results[i].0);
        little_endian::push_u32(&mut out, results[i].1);
        proof {
            little_endian::le_bytes_len(results@[i as int].0 as nat, 8);
            little_endian::le_bytes_len(results@[i as int].1 as nat, 4);
            assert(out@ =~= before + all[i as int]);
            assert(all.take(i + 1).drop_last() =~= all.take(i as int));
        }
        i += 1;
    }
    assert(all.take(i as int) =~= all);
    out
}

/// Result `i` is found in the bytes of results.
pub proof fn results_can_be_read(results: Seq<(u64, u32)>, i: int)
    requires
        0 <= i < results.len(),
    ensures
        ({
            let b = blocks::joined(result_blocks(results));
            &&& b.len() == 12 * results.len()
            &&& storage_format::long_at(b, 12 * i) == results[i].0
            &&& storage_format::word_at(b, 12 * i + 8) == results[i].1
        }),
{
    let all = result_blocks(results);
    let b = blocks::joined(all);
    assert forall|j: int| 0 <= j < all.len() implies (#[trigger] all[j]).len() == 12 by {
        little_endian::le_bytes_len(results[j].0 as nat, 8);
        little_endian::le_bytes_len(results[j].1 as nat, 4);
    }
    blocks::joined_len(all, 12);
    blocks::joined_at(all, 12, i);
    little_endian::le_bytes_len(results[i].0 as nat, 8);
    little_endian::le_bytes_len(results[i].1 as nat, 4);
    little_endian::le_limits();
    little_endian::le_value_of_bytes(results[i].0 as nat, 8);
    little_endian::le_value_of_bytes(results[i].1 as nat, 4);
    let at = 12 * i;
    assert(b.subrange(at, at + 12) == all[i]);
    assert(b.subrange(at, at + 8) =~= little_endian::le_bytes(results[i].0 as nat, 8));
    assert(b.subrange(at + 8, at + 12) =~= all[i].subrange(8, 12));
    assert(all[i].subrange(8, 12) =~= little_endian::le_bytes(results[i].1 as nat, 4));
    assert(at + 8 + 4 == at + 12);
}

/// What a search asks for.
#[derive(Debug)]
pub struct SearchPayload {
    pub options: SearchOptions,
    pub query: Vec<u32>,
}

/// What a search for several queries asks for; the queries stand one behind the other.
#[derive(Debug)]
pub struct BatchPayload {
    pub options: SearchOptions,
    pub dim: usize,
    pub num_queries: usize,
    pub queries: Vec<u32>,
}

/// A request.
#[derive(Debug)]
pub enum Request {
    Ping,
    Search(SearchPayload),
    BatchSearch(BatchPayload),
    Insert(Vec<u32>),
    /// Vectors as JSON text.
    ImportJson(Vec<u8>),
    ExportJson,
}

/// Ten times a number, or as many as a machine can count.
pub open spec fn ten_times(k: nat) -> int {
    if 10 * k <= usize::MAX {
        10 * k as int
    } else {
        usize::MAX as int
    }
}

/// The options of a search that says nothing of how it is done: it ranks by the estimates.
pub open spec fn plain_options(o: SearchOptions, k: nat, nprobe: nat) -> bool {
    &&& o.k == k
    &&& o.nprobe == nprobe
    &&& !o.refine
    &&& o.refine_k == ten_times(k)
    &&& o.fastscan
    &&& o.query_bits == 0
    &&& !o.sq8_refine
    &&& o.sql_filter is None
}

/// The options of a search that says how it is done.
pub open spec fn flagged_options(
    o: SearchOptions,
    k: nat,
    nprobe: nat,
    flags: u32,
    query_bits: u8,
) -> bool {
    &&& o.k == k
    &&& o.nprobe == nprobe
    &&& o.refine == (flags & FLAG_REFINE != 0)
    &&& o.refine_k == ten_times(k)
    &&& o.fastscan == (flags & FLAG_FASTSCAN != 0)
    &&& o.query_bits == query_bits
    &&& o.sq8_refine == (flags & FLAG_SQ8_REFINE != 0)
    &&& o.sql_filter is None
}

/// A search payload is in the long form: `[k][nprobe][flags][1 byte query bits][dim][numbers]`.
pub open spec fn long_search(b: Seq<u8>) -> bool {
    b.len() >= 17 && b.len() == 17 + 4 * storage_format::word_at(b, 13)
}

/// A search payload is in the short form: `[k][nprobe][dim][numbers]`.
pub open spec fn short_search(b: Seq<u8>) -> bool {
    b.len() >= 12 && b.len() == 12 + 4 * storage_format::word_at(b, 8)
}

/// What a search payload asks for; the long form comes first.
pub open spec fn asks(b: Seq<u8>, s: SearchPayload) -> bool {
    let k = storage_format::word_at(b, 0);
    let nprobe = storage_format::word_at(b, 4);
    if long_search(b) {
        &&& flagged_options(s.options, k, nprobe, storage_format::word_at(b, 8) as u32, b[12])
        &&& s.query@ == blocks::bytes_to_words(b.skip(17))
    } else {
        &&& plain_options(s.options, k, nprobe)
        &&& s.query@ == blocks::bytes_to_words(b.skip(12))
    }
}

/// What is wrong with a search payload.
pub open spec fn search_fault(b: Seq<u8>) -> Option<RequestError> {
    if b.len() < 12 {
        Some(RequestError::SearchTooShort)
    } else if !long_search(b) && !short_search(b) {
        Some(RequestError::SearchLength)
    } else {
        None
    }
}

/// The options of a search.
fn options_of(k: u32, nprobe: u32, how: Option<(u32, u8)>) -> (o: SearchOptions)
    ensures
        match how {
            None => plain_options(o, k as nat, nprobe as nat),
            Some(h) => flagged_options(o, k as nat, nprobe as nat, h.0, h.1),
        },
{
    let (flags, query_bits): (u32, u8) = match how {
        None => (FLAG_FASTSCAN, 0),
        Some(h) => h,
    };
    assert(2u32 & FLAG_REFINE == 0 && 2u32 & FLAG_FASTSCAN != 0 && 2u32 & FLAG_SQ8_REFINE == 0)
        by (bit_vector);
    let refine_k: usize = if 10 * k as u64 <= usize::MAX as u64 {
        (10 * k as u64) as usize
    } else {
        usize::MAX
    };
    SearchOptions {
        k: k as usize,
        nprobe: nprobe as usize,
        refine: flags & FLAG_REFINE != 0,
        refine_k,
        fastscan: flags & FLAG_FASTSCAN != 0,
        query_bits,
        sq8_refine: flags & FLAG_SQ8_REFINE != 0,
        sql_filter: None,
    }
}

/// Reads a search payload.
pub fn parse_search(b: &[u8]) -> (r: Result<SearchPayload, RequestError>)
    ensures
        match r {
            Ok(s) => search_fault(b@) is None && asks(b@, s),
            Err(e) => search_fault(b@) == Some(e),
        },
{
    let n: usize = b.len();
    if n < 12 {
        return Err(RequestError::SearchTooShort);
    }
    let k: u32 = little_endian::read_u32(b, 0);
    let nprobe: u32 = little_endian::read_u32(b, 4);
    let third: u32 = little_endian::read_u32(b, 8);
    if n >= 17 {
        let dim: u32 = little_endian::read_u32(b, 13);
        if n as u64 == 17 + 4 * dim as u64 {
            let query = blocks::read_words(slice_subrange(b, 17, n));
            assert(b@.subrange(17, n as int) =~= b@.skip(17));
            let options = options_of(k, nprobe, Some((third, b[12])));
            return Ok(SearchPayload { options, query });
        }
    }
    if n as u64 != 12 + 4 * third as u64 {
        return Err(RequestError::SearchLength);
    }
    let query = blocks::read_words(slice_subrange(b, 12, n));
    assert(b@.subrange(12, n as int) =~= b@.skip(12));
    let options = options_of(k, nprobe, None);
    Ok(SearchPayload { options, query })
}

/// A batch payload is in the long form:
/// `[k][nprobe][flags][1 byte query bits][dim][queries][numbers]`.
pub open spec fn long_batch(b: Seq<u8>) -> bool {
    b.len() >= 21 && b.len() == 21 + storage_format::word_at(b, 17) * storage_format::word_at(b, 13)
        * 4
}

/// A batch payload is in the short form: `[k][nprobe][dim][queries][numbers]`.
pub open spec fn short_batch(b: Seq<u8>) -> bool {
    b.len() >= 16 && b.len() == 16 + storage_format::word_at(b, 12) * storage_format::word_at(b, 8)
        * 4
}

/// What a batch payload asks for; the long form comes first.
pub open spec fn asks_all(b: Seq<u8>, s: BatchPayload) -> bool {
    let k = storage_format::word_at(b, 0);
    let nprobe = storage_format::word_at(b, 4);
    if long_batch(b) {
        &&& flagged_options(s.options, k, nprobe, storage_format::word_at(b, 8) as u32, b[12])
        &&& s.dim == storage_format::word_at(b, 13)
        &&& s.num_queries == storage_format::word_at(b, 17)
        &&& s.queries@ == blocks::bytes_to_words(b.skip(21))
    } else {
        &&& plain_options(s.options, k, nprobe)
        &&& s.dim == storage_format::word_at(b, 8)
        &&& s.num_queries == storage_format::word_at(b, 12)
        &&& s.queries@ == blocks::bytes_to_words(b.skip(16))
    }
}

/// What is wrong with a batch payload.
pub open spec fn batch_fault(b: Seq<u8>) -> Option<RequestError> {
    if b.len() < 16 {
        Some(RequestError::BatchTooShort)
    } else if !long_batch(b) && !short_batch(b) {
        Some(RequestError::BatchLength)
    } else {
        None
    }
}

/// How many bytes numbers in rows take.
fn rows_size(rows: u32, dim: u32) -> (size: u128)
    ensures
        size == rows * dim * 4,
        size <= 0x4_0000_0000_0000_0000,
{
    assert(rows as u128 * dim as u128 * 4 <= 0x4_0000_0000_0000_0000) by (nonlinear_arith)
        requires
            rows <= 0xFFFF_FFFF,
            dim <= 0xFFFF_FFFF,
    ;
    assert(rows as u128 * dim as u128 <= rows as u128 * dim as u128 * 4);
    rows as u128 * dim as u128 * 4
}

/// Reads a batch payload.
pub fn parse_batch(b: &[u8]) -> (r: Result<BatchPayload, RequestError>)
    ensures
        match r {
            Ok(s) => batch_fault(b@) is None && asks_all(b@, s),
            Err(e) => batch_fault(b@) == Some(e),
        },
{
    let n: usize = b.len();
    if n < 16 {
        return Err(RequestError::BatchTooShort);
    }
    let k: u32 = little_endian::read_u32(b, 0);
    let nprobe: u32 = little_endian::read_u32(b, 4);
    let third: u32 = little_endian::read_u32(b, 8);
    if n >= 21 {
        let dim: u32 = little_endian::read_u32(b, 13);
        let count: u32 = little_endian::read_u32(b, 17);
        if n as u128 == 21 + rows_size(count, dim) {
            let queries = blocks::read_words(slice_subrange(b, 21, n));
            assert(b@.subrange(21, n as int) =~= b@.skip(21));
            let options = options_of(k, nprobe, Some((third, b[12])));
            return Ok(
                BatchPayload {
                    options,
                    dim: dim as usize,
                    num_queries: count as usize,
                    queries,
                },
            );
        }
    }
    let count: u32 = little_endian::read_u32(b, 12);
    if n as u128 != 16 + rows_size(count, third) {
        return Err(RequestError::BatchLength);
    }
    let queries = blocks::read_words(slice_subrange(b, 16, n));
    assert(b@.subrange(16, n as int) =~= b@.skip(16));
    let options = options_of(k, nprobe, None);
    Ok(BatchPayload { options, dim: third as usize, num_queries: count as usize, queries })
}

/// What is wrong with an insert payload.
pub open spec fn insert_fault(b: Seq<u8>) -> Option<RequestError> {
    if b.len() < 4 {
        Some(RequestError::InsertTooShort)
    } else if b.len() != 4 + 4 * storage_format::word_at(b, 0) {
        Some(RequestError::InsertLength)
    } else {
        None
    }
}

/// Reads an insert payload, `[dim][numbers]`.
pub fn parse_insert(b: &[u8]) -> (r: Result<Vec<u32>, RequestError>)
    ensures
        match r {
            Ok(vector) => insert_fault(b@) is None && vector@ == blocks::bytes_to_words(b@.skip(4)),
            Err(e) => insert_fault(b@) == Some(e),
        },
{
    let n: usize = b.len();
    if n < 4 {
        return Err(RequestError::InsertTooShort);
    }
    let dim: u32 = little_endian::read_u32(b, 0);
    if n as u64 != 4 + 4 * dim as u64 {
        return Err(RequestError::InsertLength);
    }
    assert(b@.subrange(4, n as int) =~= b@.skip(4));
    Ok(blocks::read_words(slice_subrange(b, 4, n)))
}

/// What is wrong with a message.
pub open spec fn message_fault(msg: Seq<u8>) -> Option<RequestError> {
    let payload = msg.skip(1);
    if msg[0] == CMD_SEARCH {
        search_fault(payload)
    } else if msg[0] == CMD_BATCH_SEARCH {
        batch_fault(payload)
    } else if msg[0] == CMD_INSERT {
        insert_fault(payload)
    } else if msg[0] == CMD_PING || msg[0] == CMD_IMPORT_JSON || msg[0] == CMD_EXPORT_JSON {
        None
    } else {
        Some(RequestError::UnknownCommand)
    }
}

/// A message makes a request.
pub open spec fn requests(msg: Seq<u8>, request: Request) -> bool {
    let payload = msg.skip(1);
    match request {
        Request::Ping => msg[0] == CMD_PING,
        Request::Search(s) => msg[0] == CMD_SEARCH && asks(payload, s),
        Request::BatchSearch(s) => msg[0] == CMD_BATCH_SEARCH && asks_all(payload, s),
        Request::Insert(vector) => msg[0] == CMD_INSERT && vector@ == blocks::bytes_to_words(
            payload.skip(4),
        ),
        Request::ImportJson(text) => msg[0] == CMD_IMPORT_JSON && text@ == payload,
        Request::ExportJson => msg[0] == CMD_EXPORT_JSON,
    }
}

/// Reads a message, without its length.
pub fn parse_message(msg: &[u8]) -> (r: Result<Request, RequestError>)
    requires
        msg@.len() > 0,
    ensures
        match r {
            Ok(request) => message_fault(msg@) is None && requests(msg@, request),
            Err(e) => message_fault(msg@) == Some(e),
        },
{
    let n: usize = msg.len();
    let payload = slice_subrange(msg, 1, n);
    assert(payload@ =~= msg@.skip(1));
    let cmd: u8 = msg[0];
    if cmd == CMD_PING {
        Ok(Request::Ping)
    } else if cmd == CMD_SEARCH {
        match parse_search(payload) {
            Ok(s) => Ok(Request::Search(s)),
            Err(e) => Err(e),
        }
    } else if cmd == CMD_BATCH_SEARCH {
        match parse_batch(payload) {
            Ok(s) => Ok(Request::BatchSearch(s)),
            Err(e) => Err(e),
        }
    } else if cmd == CMD_INSERT {
        match parse_insert(payload) {
            Ok(vector) => Ok(Request::Insert(vector)),
            Err(e) => Err(e),
        }
    } else if cmd == CMD_IMPORT_JSON {
        Ok(Request::ImportJson(vstd::slice::slice_to_vec(payload)))
    } else if cmd == CMD_EXPORT_JSON {
        Ok(Request::ExportJson)
    } else {
        Err(RequestError::UnknownCommand)
    }
}

/// The answer to a ping holds nothing.
pub fn handle_ping() -> (data: Vec<u8>)
    ensures
        data@.len() == 0,
{
    Vec::new()
}

/// The data of an answer to a search.
pub open spec fn answered<S: Fn(&SearchOptions, &Vec<u32>) -> Vec<(u64, u32)>>(
    find: S,
    options: SearchOptions,
    query: Vec<u32>,
    data: Seq<u8>,
) -> bool {
    exists|results: Vec<(u64, u32)>| #[trigger]
        call_ensures(find, (&options, &query), results) && data == blocks::joined(
            result_blocks(results@),
        )
}

/// Answers a search; `find` does it.
pub fn handle_search<S: Fn(&SearchOptions, &Vec<u32>) -> Vec<(u64, u32)>>(
    request: &SearchPayload,
    find: &S,
) -> (data: Vec<u8>)
    requires
        call_requires(*find, (&request.options, &request.query)),
    ensures
        answered(*find, request.options, request.query, data@),
{
    let results: Vec<(u64, u32)> = find(&request.options, &request.query);
    serialize_results(results.as_slice())
}

/// Query `q` of a batch.
pub open spec fn batch_query(request: BatchPayload, q: int) -> Seq<u32> {
    request.queries@.subrange(q * request.dim, q * request.dim + request.dim)
}

/// The answer to one query of a batch: how many results there are, and the results.
pub open spec fn batch_answer<S: Fn(&SearchOptions, &Vec<u32>) -> Vec<(u64, u32)>>(
    find: S,
    request: BatchPayload,
    q: int,
    data: Seq<u8>,
) -> bool {
    exists|query: Vec<u32>, results: Vec<(u64, u32)>|
        {
            &&& query@ == batch_query(request, q)
            &&& #[trigger] call_ensures(find, (&request.options, &query), results)
            &&& data == little_endian::le_bytes(results@.len(), 4) + blocks::joined(
                result_blocks(results@),
            )
        }
}

/// The data of an answer to a batch: how many queries there were, and the answer to each.
pub open spec fn batch_answered<S: Fn(&SearchOptions, &Vec<u32>) -> Vec<(u64, u32)>>(
    find: S,
    request: BatchPayload,
    parts: Seq<Seq<u8>>,
    data: Seq<u8>,
) -> bool {
    &&& parts.len() == request.num_queries
    &&& forall|q: int|
        0 <= q < parts.len() ==> batch_answer(find, request, q, #[trigger] parts[q])
    &&& data == little_endian::le_bytes(request.num_queries as nat, 4) + blocks::joined(parts)
}

/// The queries of a batch are all there.
pub open spec fn complete(request: BatchPayload) -> bool {
    &&& request.num_queries <= u32::MAX
    &&& request.queries@.len() == request.num_queries * request.dim
}

/// A function takes the queries of a batch, and gives no more results for one than can be counted in
/// an answer.
pub open spec fn finds_few<S: Fn(&SearchOptions, &Vec<u32>) -> Vec<(u64, u32)>>(
    find: S,
    request: BatchPayload,
) -> bool {
    &&& forall|q: Vec<u32>|
        q@.len() == request.dim ==> #[trigger] call_requires(find, (&request.options, &q))
    &&& forall|q: Vec<u32>, r: Vec<(u64, u32)>|
        q@.len() == request.dim && #[trigger] call_ensures(find, (&request.options, &q), r)
            ==> r@.len() <= u32::MAX
}

/// Answers a search for several queries; `find` does each.
pub fn handle_batch_search<S: Fn(&SearchOptions, &Vec<u32>) -> Vec<(u64, u32)>>(
    request: &BatchPayload,
    find: &S,
) -> (data: Vec<u8>)
    requires
        complete(*request),
        finds_few(*find, *request),
    ensures
        exists|parts: Seq<Seq<u8>>| #[trigger] batch_answered(*find, *request, parts, data@),
{
    let mut out: Vec<u8> = Vec::new();
    let ghost mut parts: Seq<Seq<u8>> = Seq::empty();
    let n: usize = request.num_queries;
    let dim: usize = request.dim;
    let len: usize = request.queries.len();
    assert(request.queries@.len() == len);
    little_endian::push_u32(&mut out, n as u32);
    let ghost head = little_endian::le_bytes(n as nat, 4);
    assert(out@ =~= head + blocks::joined(parts));
    let mut q: usize = 0;
    while q < n
        invariant
            q <= n,
            n == request.num_queries,
            dim == request.dim,
            len == request.queries@.len(),
            complete(*request),
            finds_few(*find, *request),
            parts.len() == q,
            forall|j: int| 0 <= j < q ==> batch_answer(*find, *request, j, #[trigger] parts[j]),
            out@ == head + blocks::joined(parts),
        decreases n - q,
    {
        assert(q * dim + dim <= n * dim) by (nonlinear_arith)
            requires
                q < n,
        ;
        let start: usize = q * dim;
        let query = vstd::slice::slice_to_vec(
            slice_subrange(request.queries.as_slice(), start, start + dim),
        );
        assert(query@ =~= batch_query(*request, q as int));
        let results: Vec<(u64, u32)> = find(&request.options, &query);
        let data = serialize_results(results.as_slice());
        let ghost before = out@;
        little_endian::push_u32(&mut out, results.len() as u32);
        blocks::push_bytes(&mut out, data.as_slice());
        proof {
            let part = little_endian::le_bytes(results@.len(), 4) + data@;
            assert(batch_answer(*find, *request, q as int, part));
            assert(out@ =~= before + part);
            let longer = parts.push(part);
            assert(longer.drop_last() =~= parts);
            assert(out@ =~= head + blocks::joined(longer));
            parts = longer;
        }
        q += 1;
    }
    assert(batch_answered(*find, *request, parts, out@));
    out
}

/// A batch payload that is read without fault is complete.
pub proof fn read_batch_is_complete(b: Seq<u8>, s: BatchPayload)
    requires
        batch_fault(b) is None,
        asks_all(b, s),
    ensures
        complete(s),
{
    let rest = if long_batch(b) {
        b.skip(21)
    } else {
        b.skip(16)
    };
    assert(rest.len() == s.num_queries * s.dim * 4) by (nonlinear_arith)
        requires
            rest.len() == if long_batch(b) {
                storage_format::word_at(b, 17) * storage_format::word_at(b, 13) * 4
            } else {
                storage_format::word_at(b, 12) * storage_format::word_at(b, 8) * 4
            },
            s.dim == if long_batch(b) {
                storage_format::word_at(b, 13)
            } else {
                storage_format::word_at(b, 8)
            },
            s.num_queries == if long_batch(b) {
                storage_format::word_at(b, 17)
            } else {
                storage_format::word_at(b, 12)
            },
    ;
    assert(s.queries@.len() == rest.len() / 4);
    if long_batch(b) {
        little_endian::le_bytes_of_value(b.subrange(17, 21));
    } else {
        little_endian::le_bytes_of_value(b.subrange(12, 16));
    }
    little_endian::le_limits();
}

/// No payload is in both forms, so that the long form takes nothing away from the short one.
pub proof fn forms_are_distinct(b: Seq<u8>)
    ensures
        !(long_search(b) && short_search(b)),
        !(long_batch(b) && short_batch(b)),
{
    let x = storage_format::word_at(b, 17) * storage_format::word_at(b, 13);
    let y = storage_format::word_at(b, 12) * storage_format::word_at(b, 8);
    assert(21 + x * 4 != 16 + y * 4);
}

/// The data of an answer to an insertion: the id.
pub fn insert_answer(id: u64) -> (data: Vec<u8>)
    ensures
        data@ == little_endian::le_bytes(id as nat, 8),
{
    let mut data: Vec<u8> = Vec::new();
    little_endian::push_u64(&mut data, id);
    assert(data@ =~= little_endian::le_bytes(id as nat, 8));
    data
}

} // verus!
