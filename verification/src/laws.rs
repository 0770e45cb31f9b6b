//! The behavioural laws of the gateway, stated over the same spec
//! functions the executable contracts use and proved once and for all.

use vstd::prelude::*;

use crate::cache::spec_lookup;
use crate::ip::{parse_ip_spec, spec_is_reserved, IpAddress};
use crate::resolver::{annotated, contains_marker, marker_text, sat_add, spec_complete,
    spec_handle, FetchModel, ReplyModel, StepModel};

verus! {

/// Validation: whenever an API key is configured, a request whose address
/// parameter is missing or fails IP-address parsing is answered BadInput,
/// whatever the cache contents, TTL, annotation mode or range policy.
/// (Without a key the misconfiguration answer takes precedence.)
pub proof fn lemma_bad_input(
    reject_reserved: bool,
    annotate: bool,
    ttl: u64,
    m: Map<IpAddress, (Seq<u8>, u64)>,
    param: Option<Seq<u8>>,
    now: u64,
)
    requires
        match param {
            Some(p) => parse_ip_spec(p) is None,
            None => true,
        },
    ensures
        spec_handle(true, reject_reserved, annotate, ttl, m, param, now) == (
            StepModel::Reply(ReplyModel::BadInput),
            m,
        ),
{
}

/// Misconfiguration precedence: with no API key configured, every request
/// is answered Misconfigured, whatever the parameter, cache contents,
/// TTL, annotation mode, range policy or time.
pub proof fn lemma_misconfigured(
    reject_reserved: bool,
    annotate: bool,
    ttl: u64,
    m: Map<IpAddress, (Seq<u8>, u64)>,
    param: Option<Seq<u8>>,
    now: u64,
)
    ensures
        spec_handle(false, reject_reserved, annotate, ttl, m, param, now) == (
            StepModel::Reply(ReplyModel::Misconfigured),
            m,
        ),
{
}

/// Cache freshness: an entry stored to expire at `t0 + ttl` is returned
/// unchanged by any lookup strictly before that time, and at or after it
/// the lookup finds nothing and evicts the entry.
pub proof fn lemma_cache_freshness(
    m: Map<IpAddress, (Seq<u8>, u64)>,
    ip: IpAddress,
    body: Seq<u8>,
    t0: u64,
    ttl: u64,
    now: u64,
)
    requires
        t0 + ttl <= u64::MAX,
    ensures
        ({
            let m2 = m.insert(ip, (body, (t0 + ttl) as u64));
            &&& now < t0 + ttl ==> spec_lookup(m2, ip, now) == (Some(body), m2)
            &&& now >= t0 + ttl ==> spec_lookup(m2, ip, now) == (
                None::<Seq<u8>>,
                m2.remove(ip),
            )
        }),
{
}

/// Caching disabled: with TTL zero a request for a valid, admitted
/// address always reaches Fetch, and neither the request step nor the
/// completion of the fetch ever touches the cache contents — a second
/// request fetches again.
pub proof fn lemma_cache_disabled(
    reject_reserved: bool,
    annotate: bool,
    m: Map<IpAddress, (Seq<u8>, u64)>,
    p: Seq<u8>,
    ip: IpAddress,
    body: Seq<u8>,
    now1: u64,
    now2: u64,
    now3: u64,
)
    requires
        parse_ip_spec(p) == Some(ip),
        !(reject_reserved && spec_is_reserved(ip)),
    ensures
        spec_handle(true, reject_reserved, annotate, 0, m, Some(p), now1) == (
            StepModel::Fetch(ip),
            m,
        ),
        spec_complete(0, m, ip, FetchModel::Body(body), now2) == (
            ReplyModel::Success { body, from_cache: false },
            m,
        ),
        spec_handle(true, reject_reserved, annotate, 0, m, Some(p), now3) == (
            StepModel::Fetch(ip),
            m,
        ),
{
}

/// Annotation correctness, and cache serving: with caching enabled, the
/// first request for an address not in the cache fetches, and its body is
/// returned exactly as delivered — no marker is added; the immediately
/// following request, made while the entry is fresh, is served from the
/// cache, with the marker spliced in exactly when annotation mode is on.
pub proof fn lemma_annotation(
    reject_reserved: bool,
    annotate: bool,
    ttl: u64,
    m0: Map<IpAddress, (Seq<u8>, u64)>,
    p: Seq<u8>,
    ip: IpAddress,
    body: Seq<u8>,
    now1: u64,
    now2: u64,
)
    requires
        parse_ip_spec(p) == Some(ip),
        !(reject_reserved && spec_is_reserved(ip)),
        ttl > 0,
        !m0.contains_key(ip),
        now2 < sat_add(now1, ttl),
    ensures
        spec_handle(true, reject_reserved, annotate, ttl, m0, Some(p), now1) == (
            StepModel::Fetch(ip),
            m0,
        ),
        ({
            let done = spec_complete(ttl, m0, ip, FetchModel::Body(body), now1);
            &&& done.0 == (ReplyModel::Success { body, from_cache: false })
            &&& spec_handle(true, reject_reserved, annotate, ttl, done.1, Some(p), now2) == (
                StepModel::Reply(
                    ReplyModel::Success {
                        body: if annotate {
                            annotated(body)
                        } else {
                            body
                        },
                        from_cache: true,
                    },
                ),
                done.1,
            )
        }),
{
}

/// The annotated form of a body that opens a JSON object contains the
/// marker. (A body that does not open an object is passed through
/// unchanged, so nothing is claimed of it.)
pub proof fn lemma_annotated_contains_marker(body: Seq<u8>)
    requires
        body.len() >= 2,
        body[0] == 123,
    ensures
        contains_marker(annotated(body)),
{
    assert(annotated(body).subrange(1, 1 + marker_text().len() as int) =~= marker_text());
}

} // verus!
