//! The request handler: validates the address parameter, consults the
//! cache, hands a fetch order to the surrounding transport, and folds the
//! fetch's outcome back into a response and a cache write. One pass per
//! request, terminal at the first failure; the upstream call itself is the
//! caller's to perform between `handle_request` and `complete_fetch`.

use vstd::prelude::*;

use crate::cache::{copy_bytes, spec_lookup, Cache};
use crate::ip::{ip_text, is_reserved, parse_ip, parse_ip_spec, push_ip_text, spec_is_reserved,
    IpAddress};

verus! {

/// The response a request ends in. The three upstream failures are kept
/// apart internally though they share a status code at the boundary.
pub enum GeoResponse {
    Success { body: Vec<u8>, from_cache: bool },
    BadInput,
    Misconfigured,
    UpstreamUnreachable,
    UpstreamError,
    UpstreamReadFailure,
}

/// The mathematical shape of a response.
pub enum ReplyModel {
    Success { body: Seq<u8>, from_cache: bool },
    BadInput,
    Misconfigured,
    UpstreamUnreachable,
    UpstreamError,
    UpstreamReadFailure,
}

impl View for GeoResponse {
    type V = ReplyModel;

    open spec fn view(&self) -> ReplyModel {
        match self {
            GeoResponse::Success { body, from_cache } => ReplyModel::Success {
                body: body@,
                from_cache: *from_cache,
            },
            GeoResponse::BadInput => ReplyModel::BadInput,
            GeoResponse::Misconfigured => ReplyModel::Misconfigured,
            GeoResponse::UpstreamUnreachable => ReplyModel::UpstreamUnreachable,
            GeoResponse::UpstreamError => ReplyModel::UpstreamError,
            GeoResponse::UpstreamReadFailure => ReplyModel::UpstreamReadFailure,
        }
    }
}

/// The HTTP status a response is served with: 200 on success, 400 for bad
/// input, 500 for a missing key, 502 for every upstream failure.
pub open spec fn spec_status(r: ReplyModel) -> int {
    match r {
        ReplyModel::Success { .. } => 200,
        ReplyModel::BadInput => 400,
        ReplyModel::Misconfigured => 500,
        ReplyModel::UpstreamUnreachable => 502,
        ReplyModel::UpstreamError => 502,
        ReplyModel::UpstreamReadFailure => 502,
    }
}

impl GeoResponse {
    pub fn status_code(&self) -> (c: u16)
        ensures
            c == spec_status(self@),
    {
        match self {
            GeoResponse::Success { .. } => 200,
            GeoResponse::BadInput => 400,
            GeoResponse::Misconfigured => 500,
            GeoResponse::UpstreamUnreachable => 502,
            GeoResponse::UpstreamError => 502,
            GeoResponse::UpstreamReadFailure => 502,
        }
    }
}

/// How the upstream call went, as reported by the transport: it could not
/// be sent, it answered a non-success status, its body could not be read,
/// or it delivered a body.
pub enum FetchOutcome {
    SendFailed,
    ErrorStatus,
    ReadFailed,
    Body(Vec<u8>),
}

pub enum FetchModel {
    SendFailed,
    ErrorStatus,
    ReadFailed,
    Body(Seq<u8>),
}

impl View for FetchOutcome {
    type V = FetchModel;

    open spec fn view(&self) -> FetchModel {
        match self {
            FetchOutcome::SendFailed => FetchModel::SendFailed,
            FetchOutcome::ErrorStatus => FetchModel::ErrorStatus,
            FetchOutcome::ReadFailed => FetchModel::ReadFailed,
            FetchOutcome::Body(b) => FetchModel::Body(b@),
        }
    }
}

/// What `handle_request` decides: a terminal response, or an order to call
/// the provider for `ip` and come back through `complete_fetch`.
pub enum RequestStep {
    Reply(GeoResponse),
    Fetch(IpAddress),
}

pub enum StepModel {
    Reply(ReplyModel),
    Fetch(IpAddress),
}

impl View for RequestStep {
    type V = StepModel;

    open spec fn view(&self) -> StepModel {
        match self {
            RequestStep::Reply(r) => StepModel::Reply(r@),
            RequestStep::Fetch(ip) => StepModel::Fetch(*ip),
        }
    }
}

/// The bytes of the marker `"cached":true`.
pub open spec fn marker_text() -> Seq<u8> {
    seq![34u8, 99, 97, 99, 104, 101, 100, 34, 58, 116, 114, 117, 101]
}

/// `b` holds the marker somewhere.
pub open spec fn contains_marker(b: Seq<u8>) -> bool {
    exists|i: int|
        0 <= i && i + marker_text().len() <= b.len() && #[trigger] b.subrange(
            i,
            i + marker_text().len(),
        ) == marker_text()
}

/// A cache-hit body in annotation mode: into a body that opens a JSON
/// object the marker is spliced right after the brace, with a comma where
/// more content follows; any other body is returned unchanged.
pub open spec fn annotated(b: Seq<u8>) -> Seq<u8> {
    if b.len() >= 2 && b[0] == 123 {
        if b.len() == 2 && b[1] == 125 {
            seq![123u8] + marker_text() + seq![125u8]
        } else {
            seq![123u8] + marker_text() + seq![44u8] + b.skip(1)
        }
    } else {
        b
    }
}

/// Splices the cache marker into a response body.
pub fn annotate_body(b: &Vec<u8>) -> (r: Vec<u8>)
    ensures
        r@ == annotated(b@),
{
    if b.len() >= 2 && b[0] == 123 {
        let mut out: Vec<u8> = Vec::new();
        out.push(123);
        out.push(34);
        out.push(99);
        out.push(97);
        out.push(99);
        out.push(104);
        out.push(101);
        out.push(100);
        out.push(34);
        out.push(58);
        out.push(116);
        out.push(114);
        out.push(117);
        out.push(101);
        proof {
            assert(out@ =~= seq![123u8] + marker_text());
        }
        if b.len() == 2 && b[1] == 125 {
            out.push(125);
            proof {
                assert(out@ =~= seq![123u8] + marker_text() + seq![125u8]);
            }
        } else {
            out.push(44);
            let ghost head = seq![123u8] + marker_text() + seq![44u8];
            proof {
                assert(out@ =~= head);
            }
            let mut i: usize = 1;
            while i < b.len()
                invariant
                    1 <= i <= b@.len(),
                    out@ == head + b@.subrange(1, i as int),
                decreases b@.len() - i,
            {
                out.push(b[i]);
                proof {
                    assert(out@ =~= head + b@.subrange(1, i + 1));
                }
                i = i + 1;
            }
            proof {
                assert(b@.subrange(1, b@.len() as int) =~= b@.skip(1));
            }
        }
        out
    } else {
        copy_bytes(b)
    }
}

/// Saturating addition on times, so a huge TTL cannot wrap an expiry.
pub open spec fn sat_add(a: u64, b: u64) -> u64 {
    if a + b > u64::MAX {
        u64::MAX
    } else {
        (a + b) as u64
    }
}

fn sat_add_u64(a: u64, b: u64) -> (r: u64)
    ensures
        r == sat_add(a, b),
{
    if a > u64::MAX - b {
        u64::MAX
    } else {
        a + b
    }
}

/// The bytes of "https://api.ip2location.io/?key=".
pub open spec fn url_prefix() -> Seq<u8> {
    seq![104u8, 116, 116, 112, 115, 58, 47, 47, 97, 112, 105, 46, 105, 112, 50, 108, 111, 99, 97,
        116, 105, 111, 110, 46, 105, 111, 47, 63, 107, 101, 121, 61]
}

/// The bytes of "&ip=".
pub open spec fn ip_param_prefix() -> Seq<u8> {
    seq![38u8, 105, 112, 61]
}

/// The provider request URL for a key and an address.
pub open spec fn url_text(key: Seq<u8>, ip: IpAddress) -> Seq<u8> {
    url_prefix() + key + ip_param_prefix() + ip_text(ip)
}

/// Builds the provider request URL.
pub fn provider_url(key: &[u8], ip: IpAddress) -> (r: Vec<u8>)
    ensures
        r@ == url_text(key@, ip),
{
    let mut out: Vec<u8> = Vec::new();
    out.push(104);
    out.push(116);
    out.push(116);
    out.push(112);
    out.push(115);
    out.push(58);
    out.push(47);
    out.push(47);
    out.push(97);
    out.push(112);
    out.push(105);
    out.push(46);
    out.push(105);
    out.push(112);
    out.push(50);
    out.push(108);
    out.push(111);
    out.push(99);
    out.push(97);
    out.push(116);
    out.push(105);
    out.push(111);
    out.push(110);
    out.push(46);
    out.push(105);
    out.push(111);
    out.push(47);
    out.push(63);
    out.push(107);
    out.push(101);
    out.push(121);
    out.push(61);
    proof {
        assert(out@ =~= url_prefix());
    }
    let mut i: usize = 0;
    while i < key.len()
        invariant
            i <= key@.len(),
            out@ == url_prefix() + key@.subrange(0, i as int),
        decreases key@.len() - i,
    {
        out.push(key[i]);
        proof {
            assert(out@ =~= url_prefix() + key@.subrange(0, i + 1));
        }
        i = i + 1;
    }
    proof {
        assert(key@.subrange(0, key@.len() as int) =~= key@);
    }
    out.push(38);
    out.push(105);
    out.push(112);
    out.push(61);
    proof {
        assert(out@ =~= url_prefix() + key@ + ip_param_prefix());
    }
    push_ip_text(&mut out, ip);
    proof {
        assert(out@ =~= url_text(key@, ip));
    }
    out
}

/// One request step: what the handler answers, or that it must fetch, and
/// the cache contents it leaves behind.
pub open spec fn spec_handle(
    key_present: bool,
    reject_reserved: bool,
    annotate: bool,
    ttl: u64,
    m: Map<IpAddress, (Seq<u8>, u64)>,
    param: Option<Seq<u8>>,
    now: u64,
) -> (StepModel, Map<IpAddress, (Seq<u8>, u64)>) {
    if !key_present {
        (StepModel::Reply(ReplyModel::Misconfigured), m)
    } else {
        match param {
            None => (StepModel::Reply(ReplyModel::BadInput), m),
            Some(p) => match parse_ip_spec(p) {
                None => (StepModel::Reply(ReplyModel::BadInput), m),
                Some(ip) => if reject_reserved && spec_is_reserved(ip) {
                    (StepModel::Reply(ReplyModel::BadInput), m)
                } else if ttl == 0 {
                    (StepModel::Fetch(ip), m)
                } else {
                    let looked = spec_lookup(m, ip, now);
                    match looked.0 {
                        Some(b) => (
                            StepModel::Reply(
                                ReplyModel::Success {
                                    body: if annotate {
                                        annotated(b)
                                    } else {
                                        b
                                    },
                                    from_cache: true,
                                },
                            ),
                            looked.1,
                        ),
                        None => (StepModel::Fetch(ip), looked.1),
                    }
                },
            },
        }
    }
}

/// Folding a fetch outcome back in: each failure maps to its response and
/// leaves the cache alone; a delivered body is returned verbatim and, with
/// caching enabled, written through with expiry `now + ttl`.
pub open spec fn spec_complete(
    ttl: u64,
    m: Map<IpAddress, (Seq<u8>, u64)>,
    ip: IpAddress,
    o: FetchModel,
    now: u64,
) -> (ReplyModel, Map<IpAddress, (Seq<u8>, u64)>) {
    match o {
        FetchModel::SendFailed => (ReplyModel::UpstreamUnreachable, m),
        FetchModel::ErrorStatus => (ReplyModel::UpstreamError, m),
        FetchModel::ReadFailed => (ReplyModel::UpstreamReadFailure, m),
        FetchModel::Body(b) => (
            ReplyModel::Success { body: b, from_cache: false },
            if ttl > 0 {
                m.insert(ip, (b, sat_add(now, ttl)))
            } else {
                m
            },
        ),
    }
}

/// The request handler's state: the configuration fixed at construction
/// and the cache, which exists exactly when caching is enabled.
pub struct Resolver {
    api_key: Option<Vec<u8>>,
    cache_ttl: u64,
    annotate_cache_hits: bool,
    reject_reserved: bool,
    cache: Option<Cache>,
}

impl Resolver {
    pub closed spec fn wf(&self) -> bool {
        &&& (self.cache is Some <==> self.cache_ttl > 0)
        &&& (match self.cache {
            Some(c) => c.wf(),
            None => true,
        })
    }

    pub closed spec fn spec_api_key(&self) -> Option<Seq<u8>> {
        match self.api_key {
            Some(k) => Some(k@),
            None => None,
        }
    }

    pub closed spec fn spec_cache_ttl(&self) -> u64 {
        self.cache_ttl
    }

    pub closed spec fn spec_annotate(&self) -> bool {
        self.annotate_cache_hits
    }

    pub closed spec fn spec_reject_reserved(&self) -> bool {
        self.reject_reserved
    }

    /// The cache contents; empty whenever caching is disabled.
    pub closed spec fn cache_map(&self) -> Map<IpAddress, (Seq<u8>, u64)> {
        match self.cache {
            Some(c) => c@,
            None => Map::empty(),
        }
    }

    /// A resolver with the given configuration and an empty cache; with
    /// TTL zero no cache is constructed at all.
    pub fn new(
        api_key: Option<Vec<u8>>,
        cache_ttl: u64,
        annotate_cache_hits: bool,
        reject_reserved: bool,
    ) -> (r: Resolver)
        ensures
            r.wf(),
            r.spec_api_key() == (match api_key {
                Some(k) => Some(k@),
                None => None::<Seq<u8>>,
            }),
            r.spec_cache_ttl() == cache_ttl,
            r.spec_annotate() == annotate_cache_hits,
            r.spec_reject_reserved() == reject_reserved,
            r.cache_map() == Map::<IpAddress, (Seq<u8>, u64)>::empty(),
    {
        let cache = if cache_ttl > 0 {
            Some(Cache::new())
        } else {
            None
        };
        Resolver { api_key, cache_ttl, annotate_cache_hits, reject_reserved, cache }
    }

    /// Runs Validate and CacheLookup for one request: exactly
    /// `spec_handle` over the configuration, the cache contents and the
    /// raw address parameter.
    pub fn handle_request(&mut self, ip_param: Option<&[u8]>, now: u64) -> (step: RequestStep)
        requires
            old(self).wf(),
        ensures
            final(self).wf(),
            final(self).spec_api_key() == old(self).spec_api_key(),
            final(self).spec_cache_ttl() == old(self).spec_cache_ttl(),
            final(self).spec_annotate() == old(self).spec_annotate(),
            final(self).spec_reject_reserved() == old(self).spec_reject_reserved(),
            ({
                let r = spec_handle(
                    old(self).spec_api_key() is Some,
                    old(self).spec_reject_reserved(),
                    old(self).spec_annotate(),
                    old(self).spec_cache_ttl(),
                    old(self).cache_map(),
                    (match ip_param {
                        Some(p) => Some(p@),
                        None => None::<Seq<u8>>,
                    }),
                    now,
                );
                step@ == r.0 && final(self).cache_map() == r.1
            }),
    {
        if self.api_key.is_none() {
            return RequestStep::Reply(GeoResponse::Misconfigured);
        }
        let p = match ip_param {
            Some(p) => p,
            None => {
                return RequestStep::Reply(GeoResponse::BadInput);
            },
        };
        let ip = match parse_ip(p) {
            Some(ip) => ip,
            None => {
                return RequestStep::Reply(GeoResponse::BadInput);
            },
        };
        if self.reject_reserved && is_reserved(ip) {
            return RequestStep::Reply(GeoResponse::BadInput);
        }
        if self.cache_ttl == 0 {
            return RequestStep::Fetch(ip);
        }
        match &mut self.cache {
            Some(c) => {
                match c.lookup(ip, now) {
                    Some(b) => {
                        let body = if self.annotate_cache_hits {
                            annotate_body(&b)
                        } else {
                            b
                        };
                        RequestStep::Reply(GeoResponse::Success { body, from_cache: true })
                    },
                    None => RequestStep::Fetch(ip),
                }
            },
            None => {
                proof {
                    assert(false);
                }
                RequestStep::Fetch(ip)
            },
        }
    }

    /// Runs StoreAndReturn (or the failure mapping) for one request:
    /// exactly `spec_complete` over the fetch outcome the caller reports.
    pub fn complete_fetch(&mut self, ip: IpAddress, outcome: FetchOutcome, now: u64) -> (resp:
        GeoResponse)
        requires
            old(self).wf(),
        ensures
            final(self).wf(),
            final(self).spec_api_key() == old(self).spec_api_key(),
            final(self).spec_cache_ttl() == old(self).spec_cache_ttl(),
            final(self).spec_annotate() == old(self).spec_annotate(),
            final(self).spec_reject_reserved() == old(self).spec_reject_reserved(),
            ({
                let r = spec_complete(
                    old(self).spec_cache_ttl(),
                    old(self).cache_map(),
                    ip,
                    outcome@,
                    now,
                );
                resp@ == r.0 && final(self).cache_map() == r.1
            }),
    {
        match outcome {
            FetchOutcome::SendFailed => GeoResponse::UpstreamUnreachable,
            FetchOutcome::ErrorStatus => GeoResponse::UpstreamError,
            FetchOutcome::ReadFailed => GeoResponse::UpstreamReadFailure,
            FetchOutcome::Body(b) => {
                if self.cache_ttl > 0 {
                    let expires = sat_add_u64(now, self.cache_ttl);
                    let copy = copy_bytes(&b);
                    match &mut self.cache {
                        Some(c) => {
                            c.store(ip, copy, expires);
                        },
                        None => {
                            proof {
                                assert(false);
                            }
                        },
                    }
                }
                GeoResponse::Success { body: b, from_cache: false }
            },
        }
    }
}

} // verus!
