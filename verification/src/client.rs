use vstd::prelude::*;
use crate::types::{OperationMeta, RequestPolicy};

verus! {

/// The exchange at the end of every chain: it answers nothing itself.
pub struct TerminatorExchange;

/// The settings of a client that operations fall back on; `H` is the type of the function
/// that gives extra headers.
pub struct ClientSettings<H> {
    /// The URL of the GraphQL endpoint
    pub url: String,
    /// The policy of requests that set none
    pub request_policy: RequestPolicy,
    /// The extra headers of requests that set none
    pub extra_headers: Option<H>,
}

impl<H> ClientSettings<H> {
    /// A client for the endpoint at `url`; requests prefer the cache unless they say
    /// otherwise, and have no extra headers.
    pub fn new(url: String) -> (s: ClientSettings<H>)
        ensures
            s.url == url,
            s.request_policy == RequestPolicy::CacheFirst,
            s.extra_headers is None,
    {
        ClientSettings { url, request_policy: RequestPolicy::CacheFirst, extra_headers: None }
    }

    pub fn with_request_policy(self, request_policy: RequestPolicy) -> (s: ClientSettings<H>)
        ensures
            s.url == self.url,
            s.request_policy == request_policy,
            s.extra_headers == self.extra_headers,
    {
        ClientSettings { url: self.url, request_policy, extra_headers: self.extra_headers }
    }

    pub fn with_extra_headers(self, extra_headers: H) -> (s: ClientSettings<H>)
        ensures
            s.url == self.url,
            s.request_policy == self.request_policy,
            s.extra_headers == Some(extra_headers),
    {
        ClientSettings { url: self.url, request_policy: self.request_policy, extra_headers: Some(extra_headers) }
    }
}

/// Options passed with one query; those that it sets take precedence over the client's.
/// `X` is the type of the extensions that exchanges read.
pub struct QueryOptions<H, X> {
    pub url: Option<String>,
    pub request_policy: Option<RequestPolicy>,
    pub extra_headers: Option<H>,
    pub extensions: Option<X>,
}

impl<H, X> QueryOptions<H, X> {
    pub fn new() -> (o: QueryOptions<H, X>)
        ensures
            o.url is None,
            o.request_policy is None,
            o.extra_headers is None,
            o.extensions is None,
    {
        QueryOptions { url: None, request_policy: None, extra_headers: None, extensions: None }
    }
}

/// What an operation runs with: the query's options where it sets them, else the client's.
pub struct OperationOptions<H, X> {
    pub url: String,
    pub request_policy: RequestPolicy,
    pub extra_headers: Option<H>,
    pub extensions: Option<X>,
}

/// The first of two optional values that is there.
pub fn prefer<T>(first: Option<T>, second: Option<T>) -> (r: Option<T>)
    ensures
        r == (if first is Some { first } else { second }),
{
    match first {
        Some(v) => Some(v),
        None => second,
    }
}

/// An operation ready to run: its key, which identifies the query together with its
/// variables, its meta data, its query body `B`, and its options.
pub struct RequestOperation<B, H, X> {
    pub key: u64,
    pub meta: OperationMeta,
    pub query: B,
    pub options: OperationOptions<H, X>,
}

/// Make the operation for a query: its key is the progressive hash of the query key over the
/// serialized variables; its URL, policy and extra headers are the query's where it sets
/// them, else the client's (the client's headers function is cloned); its extensions are
/// the query's; meta data and body are taken as they are.
pub fn create_request_operation<B, H: Clone, X>(
    settings: &ClientSettings<H>,
    meta: OperationMeta,
    query: B,
    variables: &[u8],
    options: QueryOptions<H, X>,
) -> (op: RequestOperation<B, H, X>)
    ensures
        op.key == crate::utils::hash_bytes(meta.query_key as u64, variables@),
        op.meta == meta,
        op.query == query,
        op.options.url@ == (match options.url {
            Some(u) => u@,
            None => settings.url@,
        }),
        op.options.request_policy == (match options.request_policy {
            Some(p) => p,
            None => settings.request_policy,
        }),
        match options.extra_headers {
            Some(h) => op.options.extra_headers == Some(h),
            None => match settings.extra_headers {
                Some(h) => op.options.extra_headers matches Some(c) && vstd::pervasive::cloned(h, c),
                None => op.options.extra_headers is None,
            },
        },
        op.options.extensions == options.extensions,
{
    let key = crate::utils::progressive_hash(meta.query_key, variables);
    let url = match options.url {
        Some(u) => u,
        None => settings.url.clone(),
    };
    let request_policy = match options.request_policy {
        Some(p) => p,
        None => settings.request_policy,
    };
    let extra_headers = match options.extra_headers {
        Some(h) => Some(h),
        None => match &settings.extra_headers {
            Some(h) => Some(h.clone()),
            None => None,
        },
    };
    RequestOperation {
        key,
        meta,
        query,
        options: OperationOptions { url, request_policy, extra_headers, extensions: options.extensions },
    }
}

} // verus!
