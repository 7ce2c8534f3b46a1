//! The rules behind the two endpoints of the service.

use vstd::prelude::*;
use crate::api::dto::{ErrorResponse, GraphStatsDto, HealthResponse, QuoteRequest, QuoteResponse};
use crate::api::state::AppState;
use crate::cache::bucket::bucket_of;
use crate::cache::route_cache::same_quote;
use crate::graph::pool_graph::pools_of;
use crate::routing::quote::Quote;
use crate::routing::router::{answers_quote, hops_asked, Router};
use crate::routing::single_hop::has_direct_quote;
use crate::utils::address::{address_checksum, Address};
use crate::utils::error::{error_text, RouterError};
use crate::utils::text::text_concat;
use crate::utils::uint::{decimal_text, parsed_number, U256};

verus! {

/// Why a request failed, by the status that the service answers with.
#[derive(Debug)]
pub enum ApiError {
    /// Status 400.
    BadRequest(String),
    /// Status 500.
    InternalError(String),
    /// Status 404.
    NotFound(String),
}

impl ApiError {
    /// Whether the error is a bad request with the message `text`.
    pub open spec fn is_bad_request(self, text: Seq<char>) -> bool {
        self matches ApiError::BadRequest(m) && m@ == text
    }

    /// Whether the error is not found with the message `text`.
    pub open spec fn is_not_found(self, text: Seq<char>) -> bool {
        self matches ApiError::NotFound(m) && m@ == text
    }

    /// Whether the error is an internal error with the message `text`.
    pub open spec fn is_internal(self, text: Seq<char>) -> bool {
        self matches ApiError::InternalError(m) && m@ == text
    }

    /// The error of the service for an error of the router: no route is not
    /// found, an invalid amount is a bad request, anything else an internal
    /// error; the message is that of the router's error.
    pub fn from_router_error(err: RouterError) -> (r: ApiError)
        ensures
            match err {
                RouterError::NoRouteFound { .. } => r.is_not_found(error_text(err)),
                RouterError::InvalidAmount(_) => r.is_bad_request(error_text(err)),
                _ => r.is_internal(error_text(err)),
            },
    {
        let message = err.message();
        match err {
            RouterError::NoRouteFound { .. } => ApiError::NotFound(message),
            RouterError::InvalidAmount(_) => ApiError::BadRequest(message),
            _ => ApiError::InternalError(message),
        }
    }

    /// The status code of the error: 400, 404 or 500.
    pub fn status_code(&self) -> (code: u16)
        ensures
            code == match self {
                ApiError::BadRequest(_) => 400u16,
                ApiError::NotFound(_) => 404u16,
                ApiError::InternalError(_) => 500u16,
            },
    {
        match self {
            ApiError::BadRequest(_) => 400,
            ApiError::NotFound(_) => 404,
            ApiError::InternalError(_) => 500,
        }
    }

    /// The body of the answer for the error: the canonical reason of its
    /// status code and its message.
    pub fn into_response(self) -> (r: ErrorResponse)
        ensures
            r.error@ == match self {
                ApiError::BadRequest(_) => "Bad Request"@,
                ApiError::NotFound(_) => "Not Found"@,
                ApiError::InternalError(_) => "Internal Server Error"@,
            },
            r.message@ == match self {
                ApiError::BadRequest(m) => m@,
                ApiError::NotFound(m) => m@,
                ApiError::InternalError(m) => m@,
            },
    {
        match self {
            ApiError::BadRequest(message) => ErrorResponse {
                error: "Bad Request".to_owned(),
                message,
            },
            ApiError::NotFound(message) => ErrorResponse { error: "Not Found".to_owned(), message },
            ApiError::InternalError(message) => ErrorResponse {
                error: "Internal Server Error".to_owned(),
                message,
            },
        }
    }
}

/// The answer to a health check: the status `healthy`, the version and the
/// chain of the service, and the numbers of its graph.
pub fn health_check(state: &AppState, version: &str) -> (r: HealthResponse)
    ensures
        r.status@ == "healthy"@,
        r.version@ == version@,
        r.chain_id == state.settings.chain.chain_id,
        r.graph_stats.token_count == state.router.spec_graph().tokens().len(),
        r.graph_stats.pool_count == state.router.spec_graph().pools().len(),
        r.graph_stats.last_update == state.router.spec_graph().last_update(),
{
    let stats = state.router.graph().stats();
    HealthResponse {
        status: "healthy".to_owned(),
        version: version.to_owned(),
        chain_id: state.settings.chain.chain_id,
        graph_stats: GraphStatsDto {
            token_count: stats.token_count,
            pool_count: stats.pool_count,
            last_update: stats.last_update,
        },
    }
}

/// The key under which the service caches the quote of a request: the two
/// tokens and the bucket of the amount, with colons between them.
pub open spec fn quote_cache_key(token_in: Address, token_out: Address, amount: nat) -> Seq<char> {
    address_checksum(token_in@) + ":"@ + address_checksum(token_out@) + ":"@ + decimal_text(
        bucket_of(amount),
    )
}

fn make_cache_key(token_in: Address, token_out: Address, amount: U256) -> (r: String)
    ensures
        r@ == quote_cache_key(token_in, token_out, amount@),
{
    let first = text_concat(token_in.to_checksum_string(), ":");
    let second = text_concat(
        text_concat(first, token_out.to_checksum_string().as_str()),
        ":",
    );
    text_concat(second, crate::cache::bucket::bucket_amount(amount).as_str())
}

/// The bucket of `amount` as a decimal numeral: the numeral of the amount
/// with all digits but the first two replaced by `0`.
pub fn bucket_amount(amount: U256) -> (r: String)
    ensures
        r@ == decimal_text(bucket_of(amount@)),
{
    crate::cache::bucket::bucket_amount(amount)
}

/// Whether the service has a quote under `key` that has not reached its time
/// to live at the time `now`.
pub open spec fn has_live_quote(state: AppState, key: Seq<char>, now: u64) -> bool {
    match crate::cache::route_cache::text_position(state.cache.entries(), key) {
        Some(i) => !crate::cache::lru_cache::is_expired(
            state.cache.entries()[i].inserted_at,
            now,
            state.cache.ttl(),
        ),
        None => false,
    }
}

/// The quotes of the service after a read of `key` at the time `now`: a quote
/// that has reached its time to live is gone.
pub open spec fn quotes_after_read(state: AppState, key: Seq<char>, now: u64) -> Seq<
    crate::cache::route_cache::CachedQuote,
> {
    match crate::cache::route_cache::text_position(state.cache.entries(), key) {
        Some(i) => if crate::cache::lru_cache::is_expired(
            state.cache.entries()[i].inserted_at,
            now,
            state.cache.ttl(),
        ) {
            state.cache.entries().remove(i)
        } else {
            state.cache.entries()
        },
        None => state.cache.entries(),
    }
}

/// Whether `answer` is what the service makes of the router's answer to a
/// request for `amount` that turns the router `before` into `after`: the
/// router's quote, marked as not cached, or status 404 with the message of the
/// router's error.
#[verifier::opaque]
pub open spec fn passes_on(
    before: Router,
    request: QuoteRequest,
    amount: U256,
    now: u64,
    answer: Result<QuoteResponse, ApiError>,
    after: Router,
) -> bool {
    exists|found: Result<Quote, RouterError>|
        {
            &&& #[trigger] answers_quote(
                before.spec_graph(),
                before.spec_cache(),
                before.spec_config().enable_cache,
                request.token_in,
                request.token_out,
                amount,
                request.slippage_bps,
                hops_asked(request.max_hops),
                now,
                found,
                after.spec_cache(),
            )
            &&& match found {
                Ok(quote) => answer is Ok && answer->Ok_0.quote == quote && !answer->Ok_0.cached,
                Err(e) => answer is Err && answer->Err_0.is_not_found(error_text(e)),
            }
        }
}

/// The answer to a request for a quote at the time `now`.
///
/// An amount that is no numeral is a bad request. A quote that the service
/// has cached for the two tokens and the bucket of the amount, and that has
/// not reached its time to live, is answered as cached. Otherwise the quote is
/// that of the router, which is then cached; an error of the router becomes
/// the error of the service that [`ApiError::from_router_error`] gives.
#[verifier::rlimit(50)]
pub fn get_quote(state: &mut AppState, request: &QuoteRequest, now: u64) -> (r: Result<
    QuoteResponse,
    ApiError,
>)
    ensures
        final(state).settings == old(state).settings,
        final(state).router.spec_graph() == old(state).router.spec_graph(),
        parsed_number(request.amount_in@) is None ==> r is Err && r->Err_0.is_bad_request(
            "Invalid amount"@,
        ),
        r is Ok ==> r->Ok_0.timestamp == now,
        parsed_number(request.amount_in@) is Some ==> ({
            let key = quote_cache_key(
                request.token_in,
                request.token_out,
                parsed_number(request.amount_in@)->0,
            );
            match crate::cache::route_cache::text_position(old(state).cache.entries(), key) {
                Some(i) => !crate::cache::lru_cache::is_expired(
                    old(state).cache.entries()[i].inserted_at,
                    now,
                    old(state).cache.ttl(),
                ) ==> r is Ok && r->Ok_0.cached && same_quote(
                    r->Ok_0.quote,
                    old(state).cache.entries()[i].quote,
                ),
                None => r is Ok ==> !r->Ok_0.cached,
            }
        }),
        parsed_number(request.amount_in@) is Some && has_live_quote(
            *old(state),
            quote_cache_key(
                request.token_in,
                request.token_out,
                parsed_number(request.amount_in@)->0,
            ),
            now,
        ) ==> final(state).router.spec_cache() == old(state).router.spec_cache()
            && final(state).cache.entries() == old(state).cache.entries(),
        parsed_number(request.amount_in@) is Some && !has_live_quote(
            *old(state),
            quote_cache_key(
                request.token_in,
                request.token_out,
                parsed_number(request.amount_in@)->0,
            ),
            now,
        ) ==> exists|amount: U256|
            amount@ == parsed_number(request.amount_in@)->0 && #[trigger] passes_on(
                old(state).router,
                *request,
                amount,
                now,
                r,
                final(state).router,
            ),
        parsed_number(request.amount_in@) is Some && r is Err ==> r->Err_0 is NotFound,
        parsed_number(request.amount_in@) is Some && r is Err ==> final(state).cache.entries()
            == quotes_after_read(
            *old(state),
            quote_cache_key(
                request.token_in,
                request.token_out,
                parsed_number(request.amount_in@)->0,
            ),
            now,
        ),
        parsed_number(request.amount_in@) is Some && r is Ok && !r->Ok_0.cached
            ==> final(state).cache.entries().len() >= 1
            && final(state).cache.entries().last().key@ == quote_cache_key(
            request.token_in,
            request.token_out,
            parsed_number(request.amount_in@)->0,
        ) && same_quote(final(state).cache.entries().last().quote, r->Ok_0.quote)
            && final(state).cache.entries().last().inserted_at == now,
        final(state).cache.ttl() == old(state).cache.ttl(),
        parsed_number(request.amount_in@) is Some && (exists|amount: U256|
            amount@ == parsed_number(request.amount_in@)->0 && #[trigger] has_direct_quote(
                pools_of(old(state).router.spec_graph().pools(), request.token_in),
                request.token_in,
                request.token_out,
                amount@,
            )) ==> r is Ok,
{
    let amount_in = match U256::parse(request.amount_in.as_str()) {
        Some(amount) => amount,
        None => {
            return Err(ApiError::BadRequest("Invalid amount".to_owned()));
        },
    };
    let cache_key = make_cache_key(request.token_in, request.token_out, amount_in);
    match state.cache.get(cache_key.as_str(), now) {
        Some(cached_quote) => {
            return Ok(QuoteResponse { quote: cached_quote, timestamp: now, cached: true });
        },
        None => {},
    }
    let found = state.router.get_quote(
        request.token_in,
        request.token_out,
        amount_in,
        request.slippage_bps,
        request.max_hops,
        now,
    );
    let ghost witness = found;
    proof {
        assert(answers_quote(
            old(state).router.spec_graph(),
            old(state).router.spec_cache(),
            old(state).router.spec_config().enable_cache,
            request.token_in,
            request.token_out,
            amount_in,
            request.slippage_bps,
            hops_asked(request.max_hops),
            now,
            witness,
            state.router.spec_cache(),
        ));
    }
    let quote = match found {
        Ok(quote) => quote,
        Err(e) => {
            let error = ApiError::from_router_error(e);
            proof {
                reveal(passes_on);
                assert(passes_on(
                    old(state).router,
                    *request,
                    amount_in,
                    now,
                    Err(error),
                    state.router,
                ));
            }
            return Err(error);
        },
    };
    state.cache.set(cache_key.as_str(), &quote, now);
    let response = QuoteResponse { quote, timestamp: now, cached: false };
    proof {
        reveal(passes_on);
        assert(passes_on(old(state).router, *request, amount_in, now, Ok(response), state.router));
    }
    Ok(response)
}

} // verus!
