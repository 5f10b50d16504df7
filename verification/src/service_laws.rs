//! What callers of the service are answered, how files and addresses are named, and what is
//! recommended.

use crate::address;
use crate::decimal;
use crate::http_server::{Method, Page, Route, SearchDefaults, SearchRequest};
use crate::http_server;
use crate::partitioning;
use crate::search::SearchOptions;
use crate::sys_info;
use crate::vdb;
use vstd::arithmetic::power::pow;
use vstd::prelude::*;

verus! {

/// Every answer of the service has one method and one path, and everything else is not found.
pub proof fn routes_are_known(method: Method, uri: Seq<char>)
    ensures
        ({
            let r = http_server::routed(method, uri);
            &&& r == Route::Preflight <==> method == Method::Options
            &&& r == Route::Health <==> method == Method::Get && uri == "/health"@
            &&& r == Route::Stats <==> method == Method::Get && uri == "/stats"@
            &&& r == Route::Static(Page::Index) <==> method == Method::Get && uri == "/"@
            &&& r == Route::Static(Page::Script) <==> method == Method::Get && uri == "/app.js"@
            &&& r == Route::Static(Page::Style) <==> method == Method::Get && uri == "/style.css"@
            &&& r == Route::Search <==> method == Method::Post && uri == "/search"@
            &&& r == Route::Insert <==> method == Method::Post && uri == "/insert"@
            &&& r == Route::BatchInsert <==> method == Method::Post && uri == "/batch_insert"@
        }),
{
    reveal_strlit("/health");
    reveal_strlit("/stats");
    reveal_strlit("/");
    reveal_strlit("/app.js");
    reveal_strlit("/style.css");
    reveal_strlit("/search");
    reveal_strlit("/insert");
    reveal_strlit("/batch_insert");
    let (health, stats, index) = ("/health"@, "/stats"@, "/"@);
    let (script, style) = ("/app.js"@, "/style.css"@);
    assert(health.len() == 7 && stats.len() == 6 && index.len() == 1);
    assert(script.len() == 7 && style.len() == 10 && health[1] == 'h' && script[1] == 'a');
    let (search, insert, batch) = ("/search"@, "/insert"@, "/batch_insert"@);
    assert(search.len() == 7 && insert.len() == 7 && batch.len() == 13 && search[1] == 's'
        && insert[1] == 'i');
}

/// An answer has the status 204 where a browser asks what it may send, 404 where nothing was found,
/// and 200 otherwise, and says what it holds.
pub proof fn answers_have_heads(r: Route)
    ensures
        r == Route::Preflight ==> http_server::status_of(r) == 204
            && http_server::content_type_text(r) == "text/plain"@,
        r == Route::NotFound ==> http_server::status_of(r) == 404,
        r != Route::Preflight && r != Route::NotFound ==> http_server::status_of(r) == 200,
        r == Route::Static(Page::Index) ==> http_server::content_type_text(r) == "text/html"@,
        r == Route::Static(Page::Script) ==> http_server::content_type_text(r)
            == "application/javascript"@,
        r == Route::Static(Page::Style) ==> http_server::content_type_text(r) == "text/css"@,
        !(r is Preflight) && !(r is Static) ==> http_server::content_type_text(r)
            == "application/json"@,
{
}

/// A status is given in words.
pub proof fn statuses_are_spelled()
    ensures
        http_server::reason_text(200) == "OK"@,
        http_server::reason_text(204) == "No Content"@,
        http_server::reason_text(400) == "Bad Request"@,
        http_server::reason_text(404) == "Not Found"@,
        http_server::reason_text(413) == "Payload Too Large"@,
        http_server::reason_text(500) == "Internal Server Error"@,
        forall|status: u16|
            status != 200 && status != 204 && status != 400 && status != 404 && status != 413
                && status != 500 ==> #[trigger] http_server::reason_text(status) == "Unknown"@,
{
}

/// The options of a request are those it names and otherwise those of the service, but for the
/// number of results, which is at most 256, and the filter, which only a request can name.
pub proof fn requests_are_completed(
    request: SearchRequest,
    defaults: SearchDefaults,
    options: SearchOptions,
)
    requires
        http_server::resolved(request, defaults, options),
    ensures
        request.k matches Some(k) ==> options.k == if k > 256 {
            256
        } else {
            k
        },
        request.k is None ==> options.k == if defaults.k > 256 {
            256
        } else {
            defaults.k
        },
        options.nprobe == request.nprobe.unwrap_or(defaults.nprobe),
        options.refine == request.refine.unwrap_or(defaults.refine),
        options.refine_k == request.refine_k.unwrap_or(defaults.refine_k),
        options.fastscan == request.fastscan.unwrap_or(defaults.fastscan),
        options.query_bits == request.query_bits.unwrap_or(defaults.query_bits),
        options.sq8_refine == request.sq8_refine.unwrap_or(defaults.sq8_refine),
        options.sql_filter == request.sql_filter,
{
}

/// The digits of a number, the last one for the ones: each is the remainder by ten of what is left of
/// the number without the digits behind it, and the first is no zero unless the number is zero.
pub proof fn digits_are_decimal(n: nat)
    ensures
        decimal::digits(n).len() > 0,
        n > 0 ==> decimal::digits(n)[0] != '0',
        n == 0 ==> decimal::digits(n) == seq!['0'],
        n < pow(10, decimal::digits(n).len()),
        forall|i: int|
            0 <= i < decimal::digits(n).len() ==> #[trigger] decimal::digits(n)[i] as int == '0' as int
                + (n as int / pow(10, (decimal::digits(n).len() - 1 - i) as nat)) % 10,
    decreases n,
{
    reveal(pow);
    let all = decimal::digits(n);
    vstd::arithmetic::power::lemma_pow1(10);
    vstd::arithmetic::power::lemma_pow0(10);
    if n < 10 {
        assert(pow(10, 1) == 10);
    } else {
        let front = decimal::digits(n / 10);
        digits_are_decimal(n / 10);
        vstd::arithmetic::power::lemma_pow_adds(10, front.len(), 1);
        let p = pow(10, front.len());
        assert(pow(10, all.len()) == p * 10);
        assert(n < 10 * p) by (nonlinear_arith)
            requires
                n / 10 < p,
        ;
        assert forall|i: int| 0 <= i < all.len() implies #[trigger] all[i] as int == '0' as int + (
        n as int / pow(10, (all.len() - 1 - i) as nat)) % 10 by {
            if i < front.len() {
                assert(all[i] == front[i]);
                let e = (front.len() - 1 - i) as nat;
                vstd::arithmetic::power::lemma_pow_adds(10, 1, e);
                vstd::arithmetic::power::lemma_pow_positive(10, e);
                assert(pow(10, (all.len() - 1 - i) as nat) == 10 * pow(10, e));
                vstd::arithmetic::div_mod::lemma_div_denominator(n as int, 10, pow(10, e));
            } else {
                assert(n as int / 1 == n);
            }
        }
        assert(all[0] == front[0]);
    }
}

/// A text of digits stands for a number: the last digit counts one, and each digit ten times as much
/// as the one behind it.
pub proof fn numbers_are_decimal(chars: Seq<char>)
    ensures
        address::number_of(chars) is Some <==> forall|i: int|
            0 <= i < chars.len() ==> '0' <= #[trigger] chars[i] <= '9',
        chars.len() == 0 ==> address::number_of(chars) == Some(0int),
        chars.len() > 0 && address::number_of(chars) is Some ==> address::number_of(
            chars.drop_last(),
        ) is Some && address::number_of(chars)->0 == 10 * address::number_of(chars.drop_last())->0
            + (chars.last() as int - '0' as int),
    decreases chars.len(),
{
    if chars.len() > 0 {
        let front = chars.drop_last();
        numbers_are_decimal(front);
        if address::number_of(chars) is Some {
            assert forall|i: int| 0 <= i < chars.len() implies '0' <= #[trigger] chars[i] <= '9' by {
                if i < front.len() {
                    assert(chars[i] == front[i]);
                }
            }
        }
        if forall|i: int| 0 <= i < chars.len() ==> '0' <= #[trigger] chars[i] <= '9' {
            assert forall|i: int| 0 <= i < front.len() implies '0' <= #[trigger] front[i] <= '9' by {
                assert(front[i] == chars[i]);
            }
        }
    }
}

/// The digits of a number are read as this number.
pub proof fn digits_are_read(n: nat)
    ensures
        address::number_of(decimal::digits(n)) == Some(n as int),
    decreases n,
{
    let all = decimal::digits(n);
    if n >= 10 {
        digits_are_read(n / 10);
        assert(all.drop_last() =~= decimal::digits(n / 10));
    } else {
        assert(all.drop_last() =~= Seq::empty());
        assert(address::number_of(all.drop_last()) == Some(0int));
    }
}

proof fn last_colon_is_found(host: Seq<char>, port: Seq<char>)
    requires
        !port.contains(':'),
    ensures
        address::last_colon(host.push(':') + port) == host.len(),
    decreases port.len(),
{
    let all = host.push(':') + port;
    if port.len() == 0 {
        assert(all =~= host.push(':'));
    } else {
        let front = port.drop_last();
        assert forall|i: int| 0 <= i < front.len() implies front[i] != ':' by {
            assert(port[i] != ':');
        }
        assert(port[port.len() - 1] != ':');
        last_colon_is_found(host, front);
        assert(all.drop_last() =~= host.push(':') + front);
    }
}

proof fn colon_is_somewhere(chars: Seq<char>)
    ensures
        -1 <= address::last_colon(chars) < chars.len(),
        address::last_colon(chars) < 0 <==> !chars.contains(':'),
    decreases chars.len(),
{
    if chars.len() > 0 {
        let front = chars.drop_last();
        colon_is_somewhere(front);
        if chars.last() != ':' {
            if chars.contains(':') {
                let i = choose|i: int| 0 <= i < chars.len() && chars[i] == ':';
                assert(front[i] == ':');
            }
            if front.contains(':') {
                let i = choose|i: int| 0 <= i < front.len() && front[i] == ':';
                assert(chars[i] == ':');
            }
        } else {
            assert(chars[chars.len() - 1] == ':');
        }
    }
}

/// An address is a host, a colon and a port. The colon is the last one, a host may hold others.
pub proof fn addresses_are_split(host: Seq<char>, port: Seq<char>)
    requires
        !port.contains(':'),
    ensures
        ({
            let addr = host.push(':') + port;
            let at = address::last_colon(addr);
            &&& at >= 0
            &&& addr.take(at) == host
            &&& addr.skip(at + 1) == port
        }),
        address::last_colon(port) < 0,
{
    last_colon_is_found(host, port);
    colon_is_somewhere(port);
    let addr = host.push(':') + port;
    assert(addr.take(host.len() as int) =~= host);
    assert(addr.skip((host.len() + 1) as int) =~= port);
}

/// The digits of a number of at most 16 bits are this port, with a plus sign before them or without.
pub proof fn ports_are_read(n: nat)
    ensures
        n <= 65535 ==> address::port_of(decimal::digits(n)) == Some(n as int)
            && address::port_of(seq!['+'] + decimal::digits(n)) == Some(n as int),
        n > 65535 ==> address::port_of(decimal::digits(n)) is None && address::port_of(
            seq!['+'] + decimal::digits(n),
        ) is None,
        address::port_of(Seq::empty()) is None,
        address::port_of(seq!['+']) is None,
{
    digits_are_read(n);
    digits_are_decimal(n);
    numbers_are_decimal(decimal::digits(n));
    assert((seq!['+'] + decimal::digits(n)).skip(1) =~= decimal::digits(n));
    assert(decimal::digits(n)[0] != '+');
    assert(seq!['+'].skip(1) =~= Seq::<char>::empty());
}

/// What is no digit cannot stand in a port, but for a plus sign at its front.
pub proof fn other_ports_are_refused(chars: Seq<char>, i: int)
    requires
        0 <= i < chars.len(),
        !('0' <= chars[i] <= '9'),
        i > 0 || chars[i] != '+',
    ensures
        address::port_of(chars) is None,
{
    let digits = address::unsigned(chars);
    numbers_are_decimal(digits);
    if chars[0] == '+' {
        assert(digits[i - 1] == chars[i]);
    } else {
        assert(digits[i] == chars[i]);
    }
}

/// The file of a version is named by it.
pub proof fn files_are_named(version: u64)
    ensures
        vdb::index_file_name(version) == "index-"@ + decimal::digits(version as nat) + ".vdb"@,
{
}

/// An index file is a file whose name starts with `index-` and ends with `.vdb`.
pub proof fn index_files_are_known(name: Seq<char>)
    ensures
        vdb::is_index_file(name) <==> exists|middle: Seq<char>|
            name == #[trigger] ("index-"@ + middle + ".vdb"@),
{
    reveal_strlit("index-");
    reveal_strlit(".vdb");
    let (front, back) = ("index-"@, ".vdb"@);
    if vdb::is_index_file(name) {
        let n = name.len() as int;
        let (head, tail) = (name.take(6), name.skip(n - 4));
        assert(head == front && tail == back);
        assert(head[2] == name[2] && head[3] == name[3] && head[4] == name[4] && head[5] == name[5]);
        assert(tail[0] == name[n - 4]);
        assert(front[2] == 'd' && front[3] == 'e' && front[4] == 'x' && front[5] == '-');
        assert(back[0] == '.');
        assert(n >= 10);
        let middle = name.subrange(6, n - 4);
        assert(name =~= front + middle + back) by {
            assert forall|i: int| 0 <= i < n implies #[trigger] name[i] == (front + middle + back)[i] by {
                if i < 6 {
                    assert(head[i] == name[i]);
                } else if i >= n - 4 {
                    assert(tail[i - (n - 4)] == name[i]);
                }
            }
        }
    }
    if exists|middle: Seq<char>| name == #[trigger] (front + middle + back) {
        let middle = choose|middle: Seq<char>| name == #[trigger] (front + middle + back);
        assert(name.take(6) =~= front);
        assert(name.skip(name.len() - 4) =~= back);
    }
}

/// Compacting removes the index files but for the latest, and no other files.
pub proof fn other_files_stay(names: Seq<String>, latest: Seq<char>, i: int)
    requires
        0 <= i < names.len() <= usize::MAX,
    ensures
        vdb::stale_places(names, latest, names.len() as int).contains(i as usize) <==> names[i]@
            != latest && exists|middle: Seq<char>|
            names[i]@ == #[trigger] ("index-"@ + middle + ".vdb"@),
{
    vdb::compacting_keeps_the_latest(names, latest, i);
    index_files_are_known(names[i]@);
}

/// The number of partitions is the root of the number of vectors without its fraction, but no less
/// than 4 and no more than 65,536.
pub proof fn partitions_are_the_root(n: int, p: int)
    requires
        0 <= n,
        partitioning::suits(n, p),
    ensures
        4 <= p <= 65536,
        p > 4 ==> p * p <= n,
        p < 65536 ==> n < (p + 1) * (p + 1),
{
    partitioning::suits_is_unique(n, p, p);
    if n < 16 {
        assert((4int + 1) * (4 + 1) == 25);
    }
    if n >= 0x1_0000_0000 {
        assert(65536int * 65536 == 0x1_0000_0000);
    }
}

/// Half of the memory is recommended for mapped files where that is less than 16 GiB, and 85 in 100
/// parts otherwise.
pub proof fn cache_is_a_share(memory_bytes: int)
    requires
        0 <= memory_bytes,
    ensures
        ({
            let cache = sys_info::cache_bytes(memory_bytes);
            &&& memory_bytes < 16 * 1024 * 1024 * 1024 ==> 2 * cache <= memory_bytes < 2 * cache + 2
            &&& memory_bytes >= 16 * 1024 * 1024 * 1024 ==> 100 * cache <= 85 * memory_bytes < 100
                * cache + 100
        }),
{
}

/// What is recommended where speed counts, where recall counts, and between the two, there by how many
/// vectors there are.
pub proof fn recommendations_mean(
    options: sys_info::RecommendedOptions,
    n: int,
    k: int,
    partitions: int,
)
    requires
        0 <= k,
        sys_info::is_latency(options.latency, k),
        sys_info::is_balanced(options.balanced, n, k, partitions),
        sys_info::is_recall(options.recall, partitions),
        4 <= partitions <= 65536,
    ensures
        options.latency.nprobe == 16,
        options.latency.refine_k == 10 * k,
        options.latency.query_bits == 8,
        options.balanced.query_bits == 0,
        options.recall.query_bits == 0,
        options.latency.fastscan,
        options.balanced.fastscan,
        options.recall.fastscan,
        n < 10_000 && partitions <= 50 ==> options.balanced.nprobe == partitions,
        n < 10_000 && partitions > 50 ==> options.balanced.nprobe == 50,
        n < 10_000 ==> options.balanced.refine_k == 20 * k,
        10_000 <= n < 1_000_000 ==> options.balanced.nprobe == 50 && options.balanced.refine_k
            == 1_000,
        n >= 1_000_000 ==> options.balanced.refine_k == 5_000,
        n >= 1_000_000 && partitions / 100 < 100 ==> options.balanced.nprobe == 100,
        n >= 1_000_000 && 100 <= partitions / 100 <= 300 ==> options.balanced.nprobe == partitions
            / 100,
        n >= 1_000_000 && partitions / 100 > 300 ==> options.balanced.nprobe == 300,
        options.recall.refine_k == 5_000,
        partitions / 10 < 100 ==> options.recall.nprobe == 100,
        100 <= partitions / 10 <= 300 ==> options.recall.nprobe == partitions / 10,
        partitions / 10 > 300 ==> options.recall.nprobe == 300,
        options.recall.recall_target@ == "≥ 0.99"@,
        options.latency.recall_target@ == "中等"@,
        n < 10_000 ==> options.balanced.recall_target@ == "≥ 0.99"@,
        10_000 <= n < 1_000_000 ==> options.balanced.recall_target@ == "≥ 0.95"@,
        n >= 1_000_000 ==> options.balanced.recall_target@ == "≥ 0.96"@,
{
}

} // verus!
