use vstd::prelude::*;

verus! {

/// The type of an operation, as GraphQL writes it: `query`, `mutation` or `subscription`.
#[derive(PartialEq, Eq, Structural, Debug, Clone, Copy)]
pub enum OperationType {
    Query,
    Mutation,
    Subscription,
}

impl OperationType {
    /// The name of the operation type, which is also the key of its root entity.
    pub open spec fn name_v(self) -> Seq<char> {
        match self {
            OperationType::Query => "Query"@,
            OperationType::Mutation => "Mutation"@,
            OperationType::Subscription => "Subscription"@,
        }
    }

    pub fn to_str(&self) -> (s: &'static str)
        ensures
            s@ == self.name_v(),
    {
        match self {
            OperationType::Query => "Query",
            OperationType::Mutation => "Mutation",
            OperationType::Subscription => "Subscription",
        }
    }

    pub fn to_string(&self) -> (s: String)
        ensures
            s@ == self.name_v(),
    {
        self.to_str().to_owned()
    }

    /// The operation type that a number stands for: 1 a mutation, 2 a subscription, any
    /// other a query.
    pub open spec fn from_spec_u8(u: u8) -> OperationType {
        if u == 1 {
            OperationType::Mutation
        } else if u == 2 {
            OperationType::Subscription
        } else {
            OperationType::Query
        }
    }
}

impl From<u8> for OperationType {
    fn from(u: u8) -> (r: OperationType) {
        if u == 1 {
            OperationType::Mutation
        } else if u == 2 {
            OperationType::Subscription
        } else {
            OperationType::Query
        }
    }
}

impl vstd::std_specs::convert::FromSpecImpl<u8> for OperationType {
    open spec fn obeys_from_spec() -> bool {
        true
    }

    open spec fn from_spec(u: u8) -> OperationType {
        OperationType::from_spec_u8(u)
    }
}

/// The request policy of a request.
///
/// * `CacheFirst` - prefers results from the cache; what is not found is fetched
/// * `CacheOnly` - only reads the cache; what is not found gives no data
/// * `NetworkOnly` - only fetches from the network and ignores the cache
/// * `CacheAndNetwork` - returns the cached result if there is one, but also fetches from
///   the network and pushes that result to subscribers
#[derive(PartialEq, Eq, Structural, Debug, Clone, Copy)]
pub enum RequestPolicy {
    CacheFirst,
    CacheOnly,
    NetworkOnly,
    CacheAndNetwork,
}

impl RequestPolicy {
    /// The number that stands for a policy, from 1 to 4 in the order of the variants.
    pub open spec fn number(self) -> u8 {
        match self {
            RequestPolicy::CacheFirst => 1,
            RequestPolicy::CacheOnly => 2,
            RequestPolicy::NetworkOnly => 3,
            RequestPolicy::CacheAndNetwork => 4,
        }
    }

    /// The policy a number stands for; only 1 to 4 stand for one.
    pub fn from_u8(value: u8) -> (p: RequestPolicy)
        requires
            1 <= value <= 4,
        ensures
            p.number() == value,
    {
        if value == 1 {
            RequestPolicy::CacheFirst
        } else if value == 2 {
            RequestPolicy::CacheOnly
        } else if value == 3 {
            RequestPolicy::NetworkOnly
        } else {
            RequestPolicy::CacheAndNetwork
        }
    }

    /// Each policy has its own number, from 1 to 4: so the policy that the number of a policy
    /// stands for is that policy, and `from_u8(p.to_u8())` gives back `p`.
    pub proof fn law_number_round_trip(p: RequestPolicy, q: RequestPolicy)
        ensures
            1 <= p.number() <= 4,
            p.number() == q.number() ==> p == q,
    {
    }

    pub fn to_u8(&self) -> (n: u8)
        ensures
            n == self.number(),
    {
        match self {
            RequestPolicy::CacheFirst => 1,
            RequestPolicy::CacheOnly => 2,
            RequestPolicy::NetworkOnly => 3,
            RequestPolicy::CacheAndNetwork => 4,
        }
    }
}

/// A name and a value, for a custom header.
#[derive(Debug, Clone, PartialEq)]
pub struct HeaderPair(pub String, pub String);

/// What is known of an operation before it runs.
#[derive(Clone, Debug)]
pub struct OperationMeta {
    /// The key of the query, before it is hashed with the variables
    pub query_key: u32,
    /// Query, mutation or subscription
    pub operation_type: OperationType,
    /// The typenames that the query returns
    pub involved_types: Vec<String>,
}

/// Where a result came from, the cache or the network.
#[derive(PartialEq, Eq, Structural, Debug, Clone, Copy)]
pub enum ResultSource {
    Cache,
    Network,
}

/// What a result carries for debugging.
#[derive(PartialEq, Eq, Structural, Debug, Clone, Copy)]
pub struct DebugInfo {
    /// The source of the result
    pub source: ResultSource,
    /// Whether the result was shared with an identical operation in flight instead of run
    pub did_dedup: bool,
}

} // verus!
