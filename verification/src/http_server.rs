//! The HTTP interface: which request is answered how.

use crate::ieee;
use crate::index_ivf_rq::{IndexModel, IvfRabitqIndex};
use crate::rabitq;
use crate::search::{QueryCode, SearchOptions};
use crate::search;
use crate::search_laws;
use crate::text;
use vstd::prelude::*;

verus! {

/// The most results that a search may ask for.
pub const MAX_K: usize = 256;

/// The most bytes that the body of a request may have.
pub const MAX_BODY_SIZE: usize = 16_777_216;

/// How many seconds a request may take.
pub const HTTP_TIMEOUT_SECS: i32 = 30;

/// The method of a request.
#[derive(Debug, Clone, Copy, PartialEq, Eq, Structural)]
pub enum Method {
    Get,
    Post,
    Options,
    Other,
}

/// A file that is served.
#[derive(Debug, Clone, Copy, PartialEq, Eq, Structural)]
pub enum Page {
    Index,
    Script,
    Style,
}

/// What a request asks for.
#[derive(Debug, Clone, Copy, PartialEq, Eq, Structural)]
pub enum Route {
    /// Which requests are allowed.
    Preflight,
    Health,
    Static(Page),
    Search,
    Insert,
    BatchInsert,
    Stats,
    NotFound,
}

/// What a request asks for.
pub open spec fn routed(method: Method, uri: Seq<char>) -> Route {
    match method {
        Method::Options => Route::Preflight,
        Method::Get => if uri == "/health"@ {
            Route::Health
        } else if uri == "/"@ {
            Route::Static(Page::Index)
        } else if uri == "/app.js"@ {
            Route::Static(Page::Script)
        } else if uri == "/style.css"@ {
            Route::Static(Page::Style)
        } else if uri == "/stats"@ {
            Route::Stats
        } else {
            Route::NotFound
        },
        Method::Post => if uri == "/search"@ {
            Route::Search
        } else if uri == "/insert"@ {
            Route::Insert
        } else if uri == "/batch_insert"@ {
            Route::BatchInsert
        } else {
            Route::NotFound
        },
        Method::Other => Route::NotFound,
    }
}

/// What a request asks for.
pub fn route(method: Method, uri: &str) -> (r: Route)
    ensures
        r == routed(method, uri@),
{
    match method {
        Method::Options => Route::Preflight,
        Method::Get => if text::same_text(uri, "/health") {
            Route::Health
        } else if text::same_text(uri, "/") {
            Route::Static(Page::Index)
        } else if text::same_text(uri, "/app.js") {
            Route::Static(Page::Script)
        } else if text::same_text(uri, "/style.css") {
            Route::Static(Page::Style)
        } else if text::same_text(uri, "/stats") {
            Route::Stats
        } else {
            Route::NotFound
        },
        Method::Post => if text::same_text(uri, "/search") {
            Route::Search
        } else if text::same_text(uri, "/insert") {
            Route::Insert
        } else if text::same_text(uri, "/batch_insert") {
            Route::BatchInsert
        } else {
            Route::NotFound
        },
        Method::Other => Route::NotFound,
    }
}

/// The words that go with a status.
pub open spec fn reason_text(status: u16) -> Seq<char> {
    if status == 200 {
        "OK"@
    } else if status == 204 {
        "No Content"@
    } else if status == 400 {
        "Bad Request"@
    } else if status == 404 {
        "Not Found"@
    } else if status == 413 {
        "Payload Too Large"@
    } else if status == 500 {
        "Internal Server Error"@
    } else {
        "Unknown"@
    }
}

/// The words that go with a status.
pub fn status_reason(status: u16) -> (reason: &'static str)
    ensures
        reason@ == reason_text(status),
{
    match status {
        200 => "OK",
        204 => "No Content",
        400 => "Bad Request",
        404 => "Not Found",
        413 => "Payload Too Large",
        500 => "Internal Server Error",
        _ => "Unknown",
    }
}

/// The status of the answer to a request that is served.
pub open spec fn status_of(r: Route) -> u16 {
    match r {
        Route::Preflight => 204,
        Route::NotFound => 404,
        _ => 200,
    }
}

/// The kind of content of the answer to a request.
pub open spec fn content_type_text(r: Route) -> Seq<char> {
    match r {
        Route::Preflight => "text/plain"@,
        Route::Static(Page::Index) => "text/html"@,
        Route::Static(Page::Script) => "application/javascript"@,
        Route::Static(Page::Style) => "text/css"@,
        _ => "application/json"@,
    }
}

/// The status and the kind of content of the answer to a request that is served.
pub fn answer_head(r: Route) -> (head: (u16, &'static str))
    ensures
        head.0 == status_of(r),
        head.1@ == content_type_text(r),
{
    match r {
        Route::Preflight => (204, "text/plain"),
        Route::Static(Page::Index) => (200, "text/html"),
        Route::Static(Page::Script) => (200, "application/javascript"),
        Route::Static(Page::Style) => (200, "text/css"),
        Route::NotFound => (404, "application/json"),
        _ => (200, "application/json"),
    }
}

/// Whether the body of a request is read; a larger one is taken as empty.
pub fn accept_body(len: usize) -> (r: bool)
    ensures
        r == (0 < len <= MAX_BODY_SIZE),
{
    len > 0 && len <= MAX_BODY_SIZE
}

/// How many results a search gives that does not say it.
pub fn default_k() -> (k: usize)
    ensures
        k == 10,
{
    10
}

/// Whether a search measures again that does not say it.
pub fn default_refine() -> (refine: bool)
    ensures
        refine,
{
    true
}

/// How many candidates a search measures again that does not say it.
pub fn default_refine_k() -> (k: usize)
    ensures
        k == 100,
{
    100
}

/// What a server takes for what a search does not say.
#[derive(Debug, Clone, Copy)]
pub struct SearchDefaults {
    pub k: usize,
    pub nprobe: usize,
    pub refine: bool,
    pub refine_k: usize,
    pub fastscan: bool,
    pub query_bits: u8,
    pub sq8_refine: bool,
}

impl Default for SearchDefaults {
    fn default() -> (d: Self)
        ensures
            d.k == 10,
            d.nprobe == 0,
            d.refine,
            d.refine_k == 100,
            d.fastscan,
            d.query_bits == 0,
            !d.sq8_refine,
    {
        SearchDefaults {
            k: default_k(),
            nprobe: 0,
            refine: default_refine(),
            refine_k: default_refine_k(),
            fastscan: true,
            query_bits: 0,
            sq8_refine: false,
        }
    }
}

/// What a search says of how it is to be done.
#[derive(Debug)]
pub struct SearchRequest {
    pub k: Option<usize>,
    pub nprobe: Option<usize>,
    pub refine: Option<bool>,
    pub refine_k: Option<usize>,
    pub fastscan: Option<bool>,
    pub query_bits: Option<u8>,
    pub sq8_refine: Option<bool>,
    pub sql_filter: Option<String>,
}

/// Why a request is refused.
#[derive(Debug, Clone, Copy, PartialEq, Eq, Structural)]
pub enum HttpError {
    /// No result is asked for.
    ZeroK,
    /// There are more or fewer payloads than vectors.
    LengthMismatch,
    NotFound,
}

/// The message of an error.
pub open spec fn http_error_text(e: HttpError) -> Seq<char> {
    match e {
        HttpError::ZeroK => "k must be > 0"@,
        HttpError::LengthMismatch => "vectors and payloads length mismatch"@,
        HttpError::NotFound => "not found"@,
    }
}

impl HttpError {
    /// The status of the answer.
    pub fn status(self) -> (status: u16)
        ensures
            status == if self == HttpError::NotFound {
                404u16
            } else {
                400u16
            },
    {
        match self {
            HttpError::NotFound => 404,
            _ => 400,
        }
    }

    /// The message of the error.
    pub fn message(self) -> (m: &'static str)
        ensures
            m@ == http_error_text(self),
    {
        match self {
            HttpError::ZeroK => "k must be > 0",
            HttpError::LengthMismatch => "vectors and payloads length mismatch",
            HttpError::NotFound => "not found",
        }
    }
}

/// What is said, or else what is taken for it.
pub open spec fn said<T>(value: Option<T>, otherwise: T) -> T {
    match value {
        Some(v) => v,
        None => otherwise,
    }
}

/// What is said, or else what is taken for it.
fn or_default<T: Copy>(value: Option<T>, otherwise: T) -> (r: T)
    ensures
        r == said(value, otherwise),
{
    match value {
        Some(v) => v,
        None => otherwise,
    }
}

/// How many results a search gives that asks for `k`.
pub open spec fn limited_k(k: int) -> int {
    if k > MAX_K {
        MAX_K as int
    } else {
        k
    }
}

/// The options of a search are what it says, else the defaults of the server, with a limit on the
/// number of results.
pub open spec fn resolved(r: SearchRequest, d: SearchDefaults, o: SearchOptions) -> bool {
    &&& o.k == limited_k(said(r.k, d.k) as int)
    &&& o.nprobe == said(r.nprobe, d.nprobe)
    &&& o.refine == said(r.refine, d.refine)
    &&& o.refine_k == said(r.refine_k, d.refine_k)
    &&& o.fastscan == said(r.fastscan, d.fastscan)
    &&& o.query_bits == said(r.query_bits, d.query_bits)
    &&& o.sq8_refine == said(r.sq8_refine, d.sq8_refine)
    &&& o.sql_filter == r.sql_filter
}

/// The options of a search.
pub fn search_options(request: SearchRequest, defaults: &SearchDefaults) -> (r: Result<
    SearchOptions,
    HttpError,
>)
    ensures
        match r {
            Ok(o) => said(request.k, defaults.k) > 0 && resolved(request, *defaults, o),
            Err(e) => said(request.k, defaults.k) == 0 && e == HttpError::ZeroK,
        },
{
    let asked: usize = or_default(request.k, defaults.k);
    let k: usize = if asked > MAX_K {
        MAX_K
    } else {
        asked
    };
    if k == 0 {
        return Err(HttpError::ZeroK);
    }
    Ok(
        SearchOptions {
            k,
            nprobe: or_default(request.nprobe, defaults.nprobe),
            refine: or_default(request.refine, defaults.refine),
            refine_k: or_default(request.refine_k, defaults.refine_k),
            fastscan: or_default(request.fastscan, defaults.fastscan),
            query_bits: or_default(request.query_bits, defaults.query_bits),
            sq8_refine: or_default(request.sq8_refine, defaults.sq8_refine),
            sql_filter: request.sql_filter,
        },
    )
}

/// A search is answered with at most as many results as it asks for and as the server gives, from the
/// nearest to the farthest, all of them vectors of the index that pass the filter of the request, and
/// no vector twice.
pub proof fn answers_are_limited<
    F: Fn(&Vec<u32>, u32) -> u32,
    E: Fn(u64, u32, u32) -> u32,
    X: Fn(&Vec<u32>) -> u32,
    Z: Fn(u8, u32, u32) -> u32,
>(
    route: F,
    estimate: E,
    exact: X,
    restore: Z,
    m: IndexModel,
    code: QueryCode,
    request: SearchRequest,
    defaults: SearchDefaults,
    options: SearchOptions,
    results: Seq<(u64, u32)>,
)
    requires
        m.wf(),
        m.partitions.len() <= usize::MAX,
        resolved(request, defaults, options),
        search::search_outcome(route, estimate, exact, restore, m, code, options, results),
    ensures
        results.len() <= MAX_K,
        results.len() <= said(request.k, defaults.k),
        forall|i: int, j: int|
            0 <= i < j < results.len() ==> ieee::single_rank((#[trigger] results[i]).1)
                <= ieee::single_rank((#[trigger] results[j]).1),
        forall|i: int|
            0 <= i < results.len() ==> search_laws::is_hit(
                m,
                search::filter_named(request.sql_filter),
                (#[trigger] results[i]).0,
            ),
        m.numbered() ==> search_laws::distinct_results(results),
{
    search_laws::search_results_are_sound(
        route,
        estimate,
        exact,
        restore,
        m,
        code,
        options,
        results,
    );
}

/// Answers a search: nothing is looked up where no result is asked for.
///
/// The functions are those of `search_query`.
pub fn handle_search<
    R: Fn(&Vec<u32>, &Vec<u32>) -> Vec<u32>,
    C: Fn(&Vec<u32>, u32) -> (u32, u32),
    N: Fn(&Vec<u32>) -> u32,
    S: Fn(u32, u8) -> u32,
    L: Fn(u32, u32, u8) -> u8,
    F: Fn(&Vec<u32>, u32) -> u32,
    E: Fn(u64, u32, u32) -> u32,
    X: Fn(&Vec<u32>) -> u32,
    Z: Fn(u8, u32, u32) -> u32,
    FM: Fn(&Vec<u32>) -> F,
    EM: Fn(&QueryCode) -> E,
    XM: Fn(&Vec<u32>) -> X,
>(
    index: &IvfRabitqIndex,
    query: &Vec<u32>,
    request: SearchRequest,
    defaults: &SearchDefaults,
    rotate: &R,
    corrections: &C,
    norm: &N,
    step: &S,
    level: &L,
    routing: &FM,
    estimating: &EM,
    measuring: &XM,
    restore: &Z,
) -> (r: Result<Vec<(u64, u32)>, HttpError>)
    requires
        index.wf(),
        said(request.k, defaults.k) == 0 || query@.len() == index@.dim,
        said(request.k, defaults.k) == 0 || index@.raw.len() == 0 || said(
            request.query_bits,
            defaults.query_bits,
        ) == 0 || rabitq::cuts_byte(said(request.query_bits, defaults.query_bits)),
        rabitq::keeps_dim(*rotate),
        forall|v: Vec<u32>, e: u32| #[trigger] call_requires(*corrections, (&v, e)),
        forall|v: Vec<u32>| #[trigger] call_requires(*norm, (&v,)),
        forall|t: u32, l: u8| #[trigger] call_requires(*step, (t, l)),
        forall|v: u32, t: u32, l: u8| #[trigger] call_requires(*level, (v, t, l)),
        search::gives_routes(*routing, index@.dim),
        search::gives_estimates(*estimating),
        search::gives_measures(*measuring, index@.dim),
        forall|c: u8, lo: u32, hi: u32| #[trigger] call_requires(*restore, (c, lo, hi)),
    ensures
        match r {
            Ok(results) => {
                &&& said(request.k, defaults.k) > 0
                &&& results@.len() <= MAX_K
                &&& exists|options: SearchOptions| #[trigger]
                    resolved(request, *defaults, options) && search::query_outcome(
                        *rotate,
                        *corrections,
                        *norm,
                        *step,
                        *level,
                        *routing,
                        *estimating,
                        *measuring,
                        *restore,
                        index@,
                        *query,
                        options,
                        results@,
                    )
            },
            Err(e) => said(request.k, defaults.k) == 0 && e == HttpError::ZeroK,
        },
{
    let options = match search_options(request, defaults) {
        Ok(options) => options,
        Err(e) => {
            return Err(e);
        },
    };
    let results = search::search_query(
        index,
        query,
        &options,
        rotate,
        corrections,
        norm,
        step,
        level,
        routing,
        estimating,
        measuring,
        restore,
    );
    proof {
        index.wf_model();
        search_laws::query_results_are_sound(
            *rotate,
            *corrections,
            *norm,
            *step,
            *level,
            *routing,
            *estimating,
            *measuring,
            *restore,
            index@,
            *query,
            options,
            results@,
        );
        assert(resolved(request, *defaults, options));
    }
    Ok(results)
}

/// Whether vectors can be inserted with the payloads that came with them, if any did.
pub fn check_batch(vectors: usize, payloads: Option<usize>) -> (r: Result<(), HttpError>)
    ensures
        match r {
            Ok(_) => payloads is None || payloads->0 == vectors,
            Err(e) => payloads is Some && payloads->0 != vectors && e == HttpError::LengthMismatch,
        },
{
    match payloads {
        Some(n) => if n == vectors {
            Ok(())
        } else {
            Err(HttpError::LengthMismatch)
        },
        None => Ok(()),
    }
}

} // verus!
