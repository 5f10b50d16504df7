//! What the bytes of the binary protocol stand for, byte by byte.

use crate::blocks;
use crate::little_endian;
use crate::nng_server;
use crate::nng_server::{BatchPayload, Request, RequestError, SearchPayload};
use crate::search::SearchOptions;
use crate::storage_format;
use vstd::prelude::*;

verus! {

/// The number that the four bytes from `i` on stand for, the first byte lowest.
pub open spec fn four(b: Seq<u8>, i: int) -> int {
    b[i] + 0x100 * b[i + 1] + 0x1_0000 * b[i + 2] + 0x100_0000 * b[i + 3]
}

/// The number that the eight bytes from `i` on stand for, the first byte lowest.
pub open spec fn eight(b: Seq<u8>, i: int) -> int {
    four(b, i) + 0x1_0000_0000 * four(b, i + 4)
}

/// Four bytes are read as a number with the first byte lowest.
pub proof fn words_are_little_endian(b: Seq<u8>, i: int)
    requires
        0 <= i,
        i + 4 <= b.len(),
    ensures
        storage_format::word_at(b, i) == four(b, i),
        storage_format::word_at(b, i) < 0x1_0000_0000,
{
    let s = b.subrange(i, i + 4);
    reveal_with_fuel(little_endian::le_value, 5);
    assert(s.skip(1).skip(1).skip(1)[0] == s[3]);
    assert(s.skip(1).skip(1)[0] == s[2]);
    assert(s.skip(1)[0] == s[1]);
}

/// Eight bytes are read as a number with the first byte lowest.
pub proof fn longs_are_little_endian(b: Seq<u8>, i: int)
    requires
        0 <= i,
        i + 8 <= b.len(),
    ensures
        storage_format::long_at(b, i) == eight(b, i),
{
    let s = b.subrange(i, i + 8);
    reveal_with_fuel(little_endian::le_value, 9);
    assert(s.skip(1).skip(1).skip(1).skip(1).skip(1).skip(1).skip(1)[0] == s[7]);
    assert(s.skip(1).skip(1).skip(1).skip(1).skip(1).skip(1)[0] == s[6]);
    assert(s.skip(1).skip(1).skip(1).skip(1).skip(1)[0] == s[5]);
    assert(s.skip(1).skip(1).skip(1).skip(1)[0] == s[4]);
    assert(s.skip(1).skip(1).skip(1)[0] == s[3]);
    assert(s.skip(1).skip(1)[0] == s[2]);
    assert(s.skip(1)[0] == s[1]);
}

/// A number that is written as four bytes is what they stand for.
pub proof fn written_words(x: nat)
    requires
        x < 0x1_0000_0000,
    ensures
        little_endian::le_bytes(x, 4).len() == 4,
        four(little_endian::le_bytes(x, 4), 0) == x,
{
    let b = little_endian::le_bytes(x, 4);
    little_endian::le_bytes_len(x, 4);
    little_endian::le_limits();
    little_endian::le_value_of_bytes(x, 4);
    words_are_little_endian(b, 0);
    assert(b.subrange(0, 4) =~= b);
}

/// A number that is written as eight bytes is what they stand for.
pub proof fn written_longs(x: nat)
    requires
        x < 0x1_0000_0000_0000_0000,
    ensures
        little_endian::le_bytes(x, 8).len() == 8,
        eight(little_endian::le_bytes(x, 8), 0) == x,
{
    let b = little_endian::le_bytes(x, 8);
    little_endian::le_bytes_len(x, 8);
    little_endian::le_limits();
    little_endian::le_value_of_bytes(x, 8);
    longs_are_little_endian(b, 0);
    assert(b.subrange(0, 8) =~= b);
}

/// The numbers of bytes from `from` on: each is made of the next four bytes.
pub open spec fn are_numbers(b: Seq<u8>, from: int, numbers: Seq<u32>) -> bool {
    &&& b.len() == from + 4 * numbers.len()
    &&& forall|d: int| 0 <= d < numbers.len() ==> #[trigger] numbers[d] == four(b, from + 4 * d)
}

proof fn numbers_are_read(b: Seq<u8>, from: int, n: int)
    requires
        0 <= from,
        0 <= n,
        b.len() == from + 4 * n,
    ensures
        are_numbers(b, from, blocks::bytes_to_words(b.skip(from))),
        blocks::bytes_to_words(b.skip(from)).len() == n,
{
    let rest = b.skip(from);
    let numbers = blocks::bytes_to_words(rest);
    assert forall|d: int| 0 <= d < numbers.len() implies #[trigger] numbers[d] == four(
        b,
        from + 4 * d,
    ) by {
        words_are_little_endian(b, from + 4 * d);
        assert(rest.subrange(4 * d, 4 * d + 4) =~= b.subrange(from + 4 * d, from + 4 * d + 4));
    }
}

/// The options of a request: how many results and how many partitions it asks for; ten candidates
/// are measured again for each result, as far as a machine can count.
pub open spec fn asks_for(o: SearchOptions, k: int, nprobe: int) -> bool {
    &&& o.k == k
    &&& o.nprobe == nprobe
    &&& o.refine_k == if 10 * k <= usize::MAX {
        10 * k
    } else {
        usize::MAX as int
    }
    &&& o.sql_filter is None
}

/// The options that say how a search is done: flags by their bits, and the bits of the query.
pub open spec fn done_by(o: SearchOptions, flags: int, query_bits: u8) -> bool {
    &&& o.refine == (flags % 2 == 1)
    &&& o.fastscan == (flags / 2 % 2 == 1)
    &&& o.sq8_refine == (flags / 4 % 2 == 1)
    &&& o.query_bits == query_bits
}

proof fn flags_by_bits(flags: u32)
    ensures
        (flags & nng_server::FLAG_REFINE != 0) == (flags % 2 == 1),
        (flags & nng_server::FLAG_FASTSCAN != 0) == (flags / 2 % 2 == 1),
        (flags & nng_server::FLAG_SQ8_REFINE != 0) == (flags / 4 % 2 == 1),
{
    assert((flags & 1 != 0) == (flags % 2 == 1)) by (bit_vector);
    assert((flags & 2 != 0) == (flags / 2 % 2 == 1)) by (bit_vector);
    assert((flags & 4 != 0) == (flags / 4 % 2 == 1)) by (bit_vector);
}

/// What the payload of a search asks for: `k`, the number of partitions, then either the flags, the
/// bits of the query, the dimension and the query, or the dimension and the query at once. A search
/// that says nothing of how it is done compares in batches and ranks by the estimates.
pub proof fn searches_are_read(b: Seq<u8>, s: SearchPayload)
    requires
        nng_server::search_fault(b) is None,
        nng_server::asks(b, s),
    ensures
        b.len() >= 12,
        asks_for(s.options, four(b, 0), four(b, 4)),
        if b.len() >= 17 && b.len() == 17 + 4 * four(b, 13) {
            &&& done_by(s.options, four(b, 8), b[12])
            &&& are_numbers(b, 17, s.query@)
            &&& s.query@.len() == four(b, 13)
        } else {
            &&& done_by(s.options, 2, 0)
            &&& are_numbers(b, 12, s.query@)
            &&& s.query@.len() == four(b, 8)
        },
{
    words_are_little_endian(b, 0);
    words_are_little_endian(b, 4);
    words_are_little_endian(b, 8);
    if b.len() >= 17 {
        words_are_little_endian(b, 13);
    }
    if nng_server::long_search(b) {
        flags_by_bits(storage_format::word_at(b, 8) as u32);
        numbers_are_read(b, 17, four(b, 13));
    } else {
        numbers_are_read(b, 12, four(b, 8));
    }
}

/// When the payload of a search is refused: it is too short to hold `k`, the partitions and a
/// dimension, or neither form has its length.
pub proof fn searches_are_refused(b: Seq<u8>)
    ensures
        (nng_server::search_fault(b) == Some(RequestError::SearchTooShort)) <==> b.len() < 12,
        (nng_server::search_fault(b) == Some(RequestError::SearchLength)) <==> b.len() >= 12 && b.len()
            != 12 + 4 * four(b, 8) && !(b.len() >= 17 && b.len() == 17 + 4 * four(b, 13)),
        nng_server::search_fault(b) matches Some(e) ==> e == RequestError::SearchTooShort || e
            == RequestError::SearchLength,
{
    if b.len() >= 12 {
        words_are_little_endian(b, 8);
    }
    if b.len() >= 17 {
        words_are_little_endian(b, 13);
    }
}

/// What the payload of a batch asks for: as that of a search, with the number of queries behind the
/// dimension, and then the numbers of all queries.
pub proof fn batches_are_read(b: Seq<u8>, s: BatchPayload)
    requires
        nng_server::batch_fault(b) is None,
        nng_server::asks_all(b, s),
    ensures
        b.len() >= 16,
        asks_for(s.options, four(b, 0), four(b, 4)),
        s.queries@.len() == s.num_queries * s.dim,
        if b.len() >= 21 && b.len() == 21 + four(b, 17) * four(b, 13) * 4 {
            &&& done_by(s.options, four(b, 8), b[12])
            &&& s.dim == four(b, 13)
            &&& s.num_queries == four(b, 17)
            &&& are_numbers(b, 21, s.queries@)
        } else {
            &&& done_by(s.options, 2, 0)
            &&& s.dim == four(b, 8)
            &&& s.num_queries == four(b, 12)
            &&& are_numbers(b, 16, s.queries@)
        },
{
    words_are_little_endian(b, 0);
    words_are_little_endian(b, 4);
    words_are_little_endian(b, 8);
    words_are_little_endian(b, 12);
    if b.len() >= 21 {
        words_are_little_endian(b, 13);
        words_are_little_endian(b, 17);
    }
    if nng_server::long_batch(b) {
        flags_by_bits(storage_format::word_at(b, 8) as u32);
        let n = four(b, 17) * four(b, 13);
        assert(n >= 0) by (nonlinear_arith)
            requires
                n == four(b, 17) * four(b, 13),
                four(b, 17) >= 0,
                four(b, 13) >= 0,
        ;
        numbers_are_read(b, 21, n);
    } else {
        let n = four(b, 12) * four(b, 8);
        assert(n >= 0) by (nonlinear_arith)
            requires
                n == four(b, 12) * four(b, 8),
                four(b, 12) >= 0,
                four(b, 8) >= 0,
        ;
        numbers_are_read(b, 16, n);
    }
}

/// What the payload of an insertion asks for: a dimension, and as many numbers.
pub proof fn insertions_are_read(b: Seq<u8>, vector: Vec<u32>)
    requires
        nng_server::insert_fault(b) is None,
        vector@ == blocks::bytes_to_words(b.skip(4)),
    ensures
        b.len() >= 4,
        vector@.len() == four(b, 0),
        are_numbers(b, 4, vector@),
{
    words_are_little_endian(b, 0);
    numbers_are_read(b, 4, four(b, 0));
}

/// What a message asks for is said by its first byte: 1 is a ping, 2 a search, 3 a batch, 4 an
/// insertion, 5 an import and 6 an export; any other one is refused.
pub proof fn commands_are_read(msg: Seq<u8>, request: Request)
    requires
        msg.len() > 0,
        nng_server::message_fault(msg) is None,
        nng_server::requests(msg, request),
    ensures
        msg[0] == match request {
            Request::Ping => 1u8,
            Request::Search(_) => 2u8,
            Request::BatchSearch(_) => 3u8,
            Request::Insert(_) => 4u8,
            Request::ImportJson(_) => 5u8,
            Request::ExportJson => 6u8,
        },
        request matches Request::ImportJson(text) ==> text@ == msg.skip(1),
        request matches Request::Search(s) ==> nng_server::search_fault(msg.skip(1)) is None
            && nng_server::asks(msg.skip(1), s),
        request matches Request::BatchSearch(s) ==> nng_server::batch_fault(msg.skip(1)) is None
            && nng_server::asks_all(msg.skip(1), s),
        request matches Request::Insert(v) ==> nng_server::insert_fault(msg.skip(1)) is None && v@
            == blocks::bytes_to_words(msg.skip(1).skip(4)),
{
}

/// A message with any other first byte than those of the six commands is refused, and a ping, an
/// import and an export never are.
pub proof fn other_commands_are_refused(msg: Seq<u8>)
    requires
        msg.len() > 0,
    ensures
        (nng_server::message_fault(msg) == Some(RequestError::UnknownCommand)) <==> !(1 <= msg[0]
            <= 6),
        msg[0] == 1 || msg[0] == 5 || msg[0] == 6 ==> nng_server::message_fault(msg) is None,
{
}

/// The results from `at` on: 12 bytes each, the id and then the distance.
pub open spec fn holds_results(data: Seq<u8>, at: int, results: Seq<(u64, u32)>) -> bool {
    forall|i: int|
        0 <= i < results.len() ==> eight(data, at + 12 * i) == (#[trigger] results[i]).0 && four(
            data,
            at + 12 * i + 8,
        ) == results[i].1
}

proof fn results_are_written(results: Seq<(u64, u32)>)
    ensures
        blocks::joined(nng_server::result_blocks(results)).len() == 12 * results.len(),
        holds_results(blocks::joined(nng_server::result_blocks(results)), 0, results),
{
    let b = blocks::joined(nng_server::result_blocks(results));
    if results.len() == 0 {
        assert(nng_server::result_blocks(results).len() == 0);
    } else {
        nng_server::results_can_be_read(results, 0);
    }
    assert forall|i: int| 0 <= i < results.len() implies eight(b, 0 + 12 * i) == (
    #[trigger] results[i]).0 && four(b, 0 + 12 * i + 8) == results[i].1 by {
        nng_server::results_can_be_read(results, i);
        longs_are_little_endian(b, 12 * i);
        words_are_little_endian(b, 12 * i + 8);
    }
}

/// The answer to a search is what the search for its query gives: 12 bytes for each result, in
/// order.
pub proof fn searches_are_answered<S: Fn(&SearchOptions, &Vec<u32>) -> Vec<(u64, u32)>>(
    find: S,
    s: SearchPayload,
    data: Seq<u8>,
)
    requires
        nng_server::answered(find, s.options, s.query, data),
    ensures
        exists|results: Vec<(u64, u32)>|
            {
                &&& #[trigger] call_ensures(find, (&s.options, &s.query), results)
                &&& data.len() == 12 * results@.len()
                &&& holds_results(data, 0, results@)
            },
{
    let results = choose|results: Vec<(u64, u32)>| #[trigger]
        call_ensures(find, (&s.options, &s.query), results) && data == blocks::joined(
            nng_server::result_blocks(results@),
        );
    results_are_written(results@);
}

/// The queries of a complete batch put one behind the other are the numbers of the batch: query `q`
/// holds the numbers from `q * dim` up to `(q + 1) * dim`.
pub proof fn queries_make_up_the_batch(request: BatchPayload)
    requires
        nng_server::complete(request),
    ensures
        forall|q: int|
            0 <= q < request.num_queries ==> (#[trigger] nng_server::batch_query(request, q)).len()
                == request.dim,
        forall|q: int, d: int|
            0 <= q < request.num_queries && 0 <= d < request.dim ==> #[trigger] nng_server::batch_query(
                request,
                q,
            )[d] == request.queries@[q * request.dim + d],
        blocks::joined(
            Seq::new(
                request.num_queries as nat,
                |q: int| nng_server::batch_query(request, q),
            ),
        ) == request.queries@,
{
    let dim = request.dim as int;
    let n = request.num_queries as int;
    let all = request.queries@;
    assert forall|q: int| 0 <= q < n implies 0 <= #[trigger] (q * dim) && q * dim + dim
        <= all.len() by {
        assert(0 <= q * dim && q * dim + dim <= n * dim) by (nonlinear_arith)
            requires
                0 <= q < n,
                0 <= dim,
        ;
    }
    assert forall|q: int| 0 <= q < n implies (#[trigger] nng_server::batch_query(request, q)).len()
        == dim by {
        assert(0 <= q * dim);
    }
    assert forall|q: int, d: int| 0 <= q < n && 0 <= d < dim implies #[trigger] nng_server::batch_query(
        request,
        q,
    )[d] == all[q * dim + d] by {
        assert(0 <= q * dim);
    }
    queries_joined(request, n);
    assert(all.take(n * dim) =~= all);
}

proof fn queries_joined(request: BatchPayload, n: int)
    requires
        nng_server::complete(request),
        0 <= n <= request.num_queries,
    ensures
        blocks::joined(Seq::new(n as nat, |q: int| nng_server::batch_query(request, q)))
            == request.queries@.take(n * request.dim),
        n * request.dim <= request.queries@.len(),
    decreases n,
{
    let dim = request.dim as int;
    let now = Seq::new(n as nat, |q: int| nng_server::batch_query(request, q));
    let all = request.queries@;
    assert(n * dim <= request.num_queries * dim) by (nonlinear_arith)
        requires
            n <= request.num_queries,
            0 <= dim,
    ;
    if n > 0 {
        queries_joined(request, n - 1);
        let before = Seq::new((n - 1) as nat, |q: int| nng_server::batch_query(request, q));
        assert(now.drop_last() =~= before);
        let at = (n - 1) * dim;
        assert(n * dim == at + dim && 0 <= at) by (nonlinear_arith)
            requires
                at == (n - 1) * dim,
                n > 0,
                0 <= dim,
        ;
        assert(all.take(at) + all.subrange(at, at + dim) =~= all.take(at + dim));
    } else {
        assert(0 * dim == 0) by (nonlinear_arith);
        assert(now.len() == 0);
        assert(all.take(0) =~= Seq::empty());
    }
}

/// The answers to a batch stand one behind the other: `at` says where each begins, and the next one
/// begins where it ends.
pub open spec fn answers_begin(results: Seq<Vec<(u64, u32)>>, at: Seq<int>) -> bool {
    &&& at.len() == results.len() + 1
    &&& at[0] == 4
    &&& forall|q: int|
        0 <= q < results.len() ==> at[q + 1] == #[trigger] at[q] + 4 + 12 * results[q]@.len()
}

/// The data of an answer to a batch holds how many queries there are, and from `at[q]` on how many
/// results the search for query `q` gives, and these results; query `q` is made of the numbers of
/// the batch from `q * dim` up to `(q + 1) * dim`.
pub open spec fn answers_all<S: Fn(&SearchOptions, &Vec<u32>) -> Vec<(u64, u32)>>(
    find: S,
    request: BatchPayload,
    data: Seq<u8>,
    queries: Seq<Vec<u32>>,
    results: Seq<Vec<(u64, u32)>>,
    at: Seq<int>,
) -> bool {
    &&& queries.len() == request.num_queries
    &&& results.len() == request.num_queries
    &&& answers_begin(results, at)
    &&& data.len() == at[request.num_queries as int]
    &&& four(data, 0) == request.num_queries
    &&& forall|q: int|
        0 <= q < request.num_queries ==> {
            &&& (#[trigger] queries[q])@.len() == request.dim
            &&& forall|d: int|
                0 <= d < request.dim ==> #[trigger] queries[q]@[d] == request.queries@[q
                    * request.dim + d]
            &&& call_ensures(find, (&request.options, &queries[q]), results[q])
            &&& four(data, at[q]) == results[q]@.len()
            &&& holds_results(data, at[q] + 4, results[q]@)
        }
}

/// The answer to a batch: how many queries there are, and for every query in turn how many results
/// there are and then the results of the search for its numbers.
pub proof fn batches_are_answered<S: Fn(&SearchOptions, &Vec<u32>) -> Vec<(u64, u32)>>(
    find: S,
    request: BatchPayload,
    parts: Seq<Seq<u8>>,
    data: Seq<u8>,
)
    requires
        nng_server::complete(request),
        nng_server::finds_few(find, request),
        nng_server::batch_answered(find, request, parts, data),
    ensures
        exists|queries: Seq<Vec<u32>>, results: Seq<Vec<(u64, u32)>>, at: Seq<int>| #[trigger]
            answers_all(find, request, data, queries, results, at),
{
    let n = request.num_queries as int;
    let queries = Seq::new(
        n as nat,
        |q: int|
            choose|query: Vec<u32>| answer_made(find, request, q, parts[q], query),
    );
    let results = Seq::new(
        n as nat,
        |q: int|
            choose|r: Vec<(u64, u32)>| #[trigger]
                call_ensures(find, (&request.options, &queries[q]), r) && parts[q]
                    == little_endian::le_bytes(r@.len(), 4) + blocks::joined(
                    nng_server::result_blocks(r@),
                ),
    );
    let at = Seq::new((n + 1) as nat, |q: int| 4 + start_of(parts, q));
    queries_make_up_the_batch(request);
    assert forall|q: int| 0 <= q < n implies {
        &&& (#[trigger] queries[q])@ == nng_server::batch_query(request, q)
        &&& call_ensures(find, (&request.options, &queries[q]), results[q])
        &&& parts[q] == little_endian::le_bytes(results[q]@.len(), 4) + blocks::joined(
            nng_server::result_blocks(results[q]@),
        )
        &&& results[q]@.len() <= u32::MAX
        &&& parts[q].len() == 4 + 12 * results[q]@.len()
    } by {
        assert(nng_server::batch_answer(find, request, q, parts[q]));
        let (query, r) = choose|query: Vec<u32>, results: Vec<(u64, u32)>|
            {
                &&& query@ == nng_server::batch_query(request, q)
                &&& #[trigger] call_ensures(find, (&request.options, &query), results)
                &&& parts[q] == little_endian::le_bytes(results@.len(), 4) + blocks::joined(
                    nng_server::result_blocks(results@),
                )
            };
        assert(answer_made(find, request, q, parts[q], query));
        assert(answer_made(find, request, q, parts[q], queries[q]));
        assert(queries[q]@.len() == request.dim);
        results_are_written(results[q]@);
        written_words(results[q]@.len());
    }
    let head = little_endian::le_bytes(n as nat, 4);
    written_words(n as nat);
    assert forall|i: int| 0 <= i < 4 implies data[i] == head[i] by {}
    assert forall|q: int| 0 <= q < n implies {
        &&& (#[trigger] queries[q])@.len() == request.dim
        &&& forall|d: int|
            0 <= d < request.dim ==> #[trigger] queries[q]@[d] == request.queries@[q * request.dim
                + d]
        &&& call_ensures(find, (&request.options, &queries[q]), results[q])
        &&& four(data, at[q]) == results[q]@.len()
        &&& holds_results(data, at[q] + 4, results[q]@)
    } by {
        let r = results[q]@;
        let body = blocks::joined(nng_server::result_blocks(r));
        let part = parts[q];
        assert(queries[q]@ == nng_server::batch_query(request, q));
        results_are_written(r);
        written_words(r.len());
        part_in_joined(parts, q);
        assert forall|j: int| 0 <= j < part.len() implies data[at[q] + j] == #[trigger] part[j] by {
            assert(data[4 + (start_of(parts, q) + j)] == blocks::joined(parts)[start_of(parts, q)
                + j]);
        }
        let count = little_endian::le_bytes(r.len(), 4);
        assert(part[0] == count[0] && part[1] == count[1] && part[2] == count[2] && part[3]
            == count[3]);
        assert forall|i: int| 0 <= i < r.len() implies eight(data, at[q] + 4 + 12 * i) == (
        #[trigger] r[i]).0 && four(data, at[q] + 4 + 12 * i + 8) == r[i].1 by {
            assert forall|j: int| 0 <= j < body.len() implies data[at[q] + 4 + j]
                == #[trigger] body[j] by {
                assert(part[4 + j] == body[j]);
            }
            assert(eight(body, 0 + 12 * i) == r[i].0);
            assert(four(body, 0 + 12 * i + 8) == r[i].1);
            let e = 12 * i;
            assert(data[at[q] + 4 + (e + 0)] == body[e + 0]);
            assert(data[at[q] + 4 + (e + 1)] == body[e + 1]);
            assert(data[at[q] + 4 + (e + 2)] == body[e + 2]);
            assert(data[at[q] + 4 + (e + 3)] == body[e + 3]);
            assert(data[at[q] + 4 + (e + 4)] == body[e + 4]);
            assert(data[at[q] + 4 + (e + 5)] == body[e + 5]);
            assert(data[at[q] + 4 + (e + 6)] == body[e + 6]);
            assert(data[at[q] + 4 + (e + 7)] == body[e + 7]);
            assert(data[at[q] + 4 + (e + 8)] == body[e + 8]);
            assert(data[at[q] + 4 + (e + 9)] == body[e + 9]);
            assert(data[at[q] + 4 + (e + 10)] == body[e + 10]);
            assert(data[at[q] + 4 + (e + 11)] == body[e + 11]);
        }
    }
    assert(answers_begin(results, at)) by {
        assert forall|q: int| 0 <= q < results.len() implies at[q + 1] == #[trigger] at[q] + 4 + 12
            * results[q]@.len() by {
            assert(queries[q]@ == nng_server::batch_query(request, q));
        }
    }
    start_of_all(parts);
    assert(answers_all(find, request, data, queries, results, at));
}

/// A query and its results make up an answer.
spec fn answer_made<S: Fn(&SearchOptions, &Vec<u32>) -> Vec<(u64, u32)>>(
    find: S,
    request: BatchPayload,
    q: int,
    part: Seq<u8>,
    query: Vec<u32>,
) -> bool {
    &&& query@ == nng_server::batch_query(request, q)
    &&& exists|r: Vec<(u64, u32)>| #[trigger]
        call_ensures(find, (&request.options, &query), r) && part == little_endian::le_bytes(
            r@.len(),
            4,
        ) + blocks::joined(nng_server::result_blocks(r@))
}

/// Where part `q` begins.
spec fn start_of(parts: Seq<Seq<u8>>, q: int) -> int
    decreases q,
{
    if q <= 0 {
        0
    } else {
        start_of(parts, q - 1) + parts[q - 1].len()
    }
}

proof fn start_of_front(parts: Seq<Seq<u8>>, q: int)
    requires
        0 <= q < parts.len(),
    ensures
        start_of(parts.drop_last(), q) == start_of(parts, q),
        0 <= start_of(parts, q),
    decreases q,
{
    if q > 0 {
        start_of_front(parts, q - 1);
        assert(parts.drop_last()[q - 1] == parts[q - 1]);
    }
}

proof fn start_of_all(parts: Seq<Seq<u8>>)
    ensures
        blocks::joined(parts).len() == start_of(parts, parts.len() as int),
    decreases parts.len(),
{
    if parts.len() > 0 {
        start_of_all(parts.drop_last());
        start_of_front(parts, parts.len() - 1);
    }
}

proof fn part_in_joined(parts: Seq<Seq<u8>>, q: int)
    requires
        0 <= q < parts.len(),
    ensures
        0 <= start_of(parts, q),
        start_of(parts, q) + parts[q].len() <= blocks::joined(parts).len(),
        forall|j: int|
            0 <= j < parts[q].len() ==> blocks::joined(parts)[start_of(parts, q) + j]
                == #[trigger] parts[q][j],
    decreases parts.len(),
{
    let front = parts.drop_last();
    start_of_front(parts, q);
    start_of_all(front);
    start_of_front(parts, parts.len() - 1);
    if q < front.len() {
        part_in_joined(front, q);
        assert(front[q] == parts[q]);
    }
}

/// A response: how many bytes follow its length, the code, and the data.
pub proof fn responses_are_written(code: u8, data: Seq<u8>)
    requires
        data.len() < u32::MAX,
    ensures
        nng_server::response_bytes(code, data).len() == 5 + data.len(),
        four(nng_server::response_bytes(code, data), 0) == 1 + data.len(),
        nng_server::response_bytes(code, data)[4] == code,
        forall|i: int|
            0 <= i < data.len() ==> nng_server::response_bytes(code, data)[5 + i]
                == #[trigger] data[i],
{
    written_words(1 + data.len());
    let head = little_endian::le_bytes(1 + data.len(), 4);
    let all = nng_server::response_bytes(code, data);
    assert(all[0] == head[0] && all[1] == head[1] && all[2] == head[2] && all[3] == head[3]);
}

/// The length of a message: it is served where it is neither zero nor more than 16 MiB.
pub proof fn lengths_are_read(head: Seq<u8>)
    requires
        head.len() == 4,
    ensures
        little_endian::le_value(head) == four(head, 0),
        nng_server::acceptable(little_endian::le_value(head)) <==> 0 < four(head, 0) <= 16
            * 1024 * 1024,
{
    words_are_little_endian(head, 0);
    assert(head.subrange(0, 4) =~= head);
}

} // verus!
