//! The active-route controller: collection activation, ad-hoc route
//! overrides, and request matching against the cached active routes.

use vstd::prelude::*;
use vstd::string::*;
use crate::headers::headers_intersects_spec;
use crate::intersect::{sm_intersects, sm_to_value};
use crate::json::{Value, ValueV};
use crate::manager::{
    actives_view, resolve_ref, resolve_spec, ActiveRoute, ActiveRouteV, MocksManager,
    MocksManagerV, ResolveError, ResolveErrorV,
};
use crate::query::{parse_query_string, parse_query_string_spec};
use crate::strmap::{sm_get, StringMap};
use crate::text::{chars_of, find_char, find_char_from, first_index_of, lemma_first_index_of,
    string_of};
use crate::types::{
    HeadersOrExpression, HeadersOrExpressionV, HttpMethod, PayloadOrExpression,
    PayloadOrExpressionV, QueryOrExpression, QueryOrExpressionV, RouteV, Transport,
};
use crate::urlmatch::{params_fold, query_start, url_match_spec, url_matches};
use crate::expression::expression_matches;

verus! {

/// An incoming request to match against the active routes.
#[derive(Debug)]
pub struct Request {
    pub url: String,
    pub method: Option<HttpMethod>,
    pub transport: Transport,
    pub headers: Option<StringMap>,
    pub query: Option<StringMap>,
    pub payload: Option<Value>,
}

/// View of a request.
pub struct RequestV {
    pub url: Seq<char>,
    pub method: Option<HttpMethod>,
    pub transport: Transport,
    pub headers: Option<Seq<(Seq<char>, Seq<char>)>>,
    pub query: Option<Seq<(Seq<char>, Seq<char>)>>,
    pub payload: Option<ValueV>,
}

impl View for Request {
    type V = RequestV;

    open spec fn view(&self) -> RequestV {
        RequestV {
            url: self.url@,
            method: self.method,
            transport: self.transport,
            headers: match &self.headers {
                Some(h) => Some(h@),
                None => None,
            },
            query: match &self.query {
                Some(q) => Some(q@),
                None => None,
            },
            payload: match &self.payload {
                Some(p) => Some(p@),
                None => None,
            },
        }
    }
}

/// The query-string part of a URL: the text between the first `?` and the
/// next `?` or the end; empty when the URL has no `?`.
pub open spec fn url_query_part(url: Seq<char>) -> Seq<char> {
    let q = query_start(url);
    if q >= url.len() {
        Seq::empty()
    } else {
        let rest = url.skip(q + 1);
        rest.take(query_start(rest))
    }
}

/// The query parameters of a request: the caller-supplied map when there is
/// one, else the map parsed from the URL's query string.
pub open spec fn request_query_map(req: RequestV) -> Seq<(Seq<char>, Seq<char>)> {
    match req.query {
        Some(q) => q,
        None => parse_query_string_spec(url_query_part(req.url)),
    }
}

/// The method check: only performed for routes that declare a method; the
/// request must then carry the same method.
pub open spec fn method_ok(route: RouteV, req: RequestV) -> bool {
    route.transport == Transport::Http ==> match route.method {
        Some(m) => match req.method {
            Some(rm) => rm == m,
            None => false,
        },
        None => true,
    }
}

/// Expected path parameters: each must be present among the extracted
/// parameters with an exactly equal value.
pub open spec fn params_ok(
    expected: Option<Seq<(Seq<char>, Seq<char>)>>,
    extracted: Seq<(Seq<char>, Seq<char>)>,
) -> bool {
    match expected {
        None => true,
        Some(ps) => forall|i: int|
            0 <= i < ps.len() ==> sm_get(extracted, (#[trigger] ps[i]).0) == Some(ps[i].1),
    }
}

/// The headers criterion: absent matches anything; a map is matched
/// case-insensitively on keys; an expression is evaluated against the
/// headers seen as a JSON object with comma-split multi-values.
pub open spec fn headers_criterion_ok(
    criterion: Option<HeadersOrExpressionV>,
    req_headers: Seq<(Seq<char>, Seq<char>)>,
) -> bool {
    match criterion {
        None => true,
        Some(HeadersOrExpressionV::Values(m)) => headers_intersects_spec(
            Some(req_headers),
            Some(m),
        ),
        Some(HeadersOrExpressionV::Expression(e)) => expression_matches(
            e,
            sm_to_value(req_headers),
        ),
    }
}

/// The query criterion: absent matches anything; a map is an intersection
/// check; an expression is evaluated against the parameters seen as a JSON
/// object.
pub open spec fn query_criterion_ok(
    criterion: Option<QueryOrExpressionV>,
    qmap: Seq<(Seq<char>, Seq<char>)>,
) -> bool {
    match criterion {
        None => true,
        Some(QueryOrExpressionV::Values(m)) => sm_intersects(Some(m), Some(qmap)),
        Some(QueryOrExpressionV::Expression(e)) => expression_matches(e, sm_to_value(qmap)),
    }
}

/// The payload criterion: a declared criterion fails when the request
/// carries no payload; an expected value is an intersection check with
/// equality for two non-object values; an expression is evaluated against
/// the payload.
pub open spec fn payload_criterion_ok(
    criterion: Option<PayloadOrExpressionV>,
    payload: Option<ValueV>,
) -> bool {
    match payload {
        Some(body) => match criterion {
            None => true,
            Some(PayloadOrExpressionV::Value(v)) => crate::payload::payload_matches_spec(
                Some(v),
                None,
                body,
            ),
            Some(PayloadOrExpressionV::Expression(e)) => crate::payload::payload_matches_spec(
                None,
                Some(e),
                body,
            ),
        },
        None => criterion is None,
    }
}

/// Whether an active route matches a request: transport, method, URL
/// template, expected path parameters, and the headers, query and payload
/// criteria must all be satisfied.
pub open spec fn route_matches_request_spec(ar: ActiveRouteV, req: RequestV) -> bool {
    &&& ar.route.transport == req.transport
    &&& method_ok(ar.route, req)
    &&& url_match_spec(ar.route.url, req.url) is Some
    &&& params_ok(
        ar.preset.params,
        params_fold(Seq::empty(), url_match_spec(ar.route.url, req.url)->0),
    )
    &&& headers_criterion_ok(
        ar.preset.headers,
        match req.headers {
            Some(h) => h,
            None => Seq::empty(),
        },
    )
    &&& query_criterion_ok(ar.preset.query, request_query_map(req))
    &&& payload_criterion_ok(ar.preset.payload, req.payload)
}

/// The first active route that matches the request, if any.
pub open spec fn find_route_spec(cache: Seq<ActiveRouteV>, req: RequestV) -> Option<ActiveRouteV>
    decreases cache.len(),
{
    if cache.len() == 0 {
        None
    } else if route_matches_request_spec(cache[0], req) {
        Some(cache[0])
    } else {
        find_route_spec(cache.drop_first(), req)
    }
}

/// `find_route_spec` is pinned down by the position of the first match.
pub proof fn lemma_find_route_at(cache: Seq<ActiveRouteV>, req: RequestV, i: int)
    requires
        0 <= i <= cache.len(),
        forall|j: int| 0 <= j < i ==> !route_matches_request_spec(#[trigger] cache[j], req),
        i < cache.len() ==> route_matches_request_spec(cache[i], req),
    ensures
        find_route_spec(cache, req) == if i < cache.len() {
            Some(cache[i])
        } else {
            None::<ActiveRouteV>
        },
    decreases cache.len(),
{
    if cache.len() > 0 && !route_matches_request_spec(cache[0], req) {
        assert forall|j: int| 0 <= j < i - 1 implies !route_matches_request_spec(
            #[trigger] cache.drop_first()[j],
            req,
        ) by {
            assert(cache[j + 1] == cache.drop_first()[j]);
        }
        if i - 1 < cache.drop_first().len() {
            assert(cache.drop_first()[i - 1] == cache[i]);
        }
        lemma_find_route_at(cache.drop_first(), req, i - 1);
    }
}

/// Whether some entry carries the given route identifier.
pub open spec fn contains_route_id(news: Seq<ActiveRouteV>, rid: Seq<char>) -> bool {
    exists|i: int| 0 <= i < news.len() && (#[trigger] news[i]).route.id == rid
}

/// The cache entries whose route identifier is not overridden by the new
/// entries, in their original order.
pub open spec fn keep_not_overridden(
    cache: Seq<ActiveRouteV>,
    news: Seq<ActiveRouteV>,
) -> Seq<ActiveRouteV>
    decreases cache.len(),
{
    if cache.len() == 0 {
        Seq::empty()
    } else if contains_route_id(news, cache[0].route.id) {
        keep_not_overridden(cache.drop_first(), news)
    } else {
        seq![cache[0]] + keep_not_overridden(cache.drop_first(), news)
    }
}

/// The cache after an override: entries sharing a route identifier with a
/// new entry are removed, keeping the relative order of the others, and the
/// new entries are appended at the end.
pub open spec fn override_merge(
    cache: Seq<ActiveRouteV>,
    news: Seq<ActiveRouteV>,
) -> Seq<ActiveRouteV> {
    keep_not_overridden(cache, news) + news
}

/// Direct resolution of a batch of route references, each required to
/// target a route of the given transport; the first failure aborts the
/// batch.
pub open spec fn override_resolve(
    m: MocksManagerV,
    refs: Seq<Seq<char>>,
    required: Transport,
    suggestion: Seq<char>,
) -> Result<Seq<ActiveRouteV>, ResolveErrorV>
    decreases refs.len(),
{
    if refs.len() == 0 {
        Ok(Seq::empty())
    } else {
        match resolve_ref(m.routes, refs[0]) {
            Err(e) => Err(e),
            Ok(ar) => if ar.route.transport != required {
                Err(
                    ResolveErrorV::TransportMismatch {
                        route_id: ar.route.id,
                        suggestion: suggestion,
                    },
                )
            } else {
                match override_resolve(m, refs.drop_first(), required, suggestion) {
                    Err(e) => Err(e),
                    Ok(rest) => Ok(seq![ar] + rest),
                }
            },
        }
    }
}

/// View of a controller: its manager, the active collection identifier and
/// the cached active routes.
pub struct MocksControllerV {
    pub manager: MocksManagerV,
    pub active_collection_id: Option<Seq<char>>,
    pub cache: Seq<ActiveRouteV>,
}

/// The stateful front door: holds the manager, the identifier of the active
/// collection, and the cached ordered list of active routes.
pub struct MocksController {
    mocks_manager: MocksManager,
    active_collection_id: Option<String>,
    cached_active_routes: Vec<ActiveRoute>,
}

impl View for MocksController {
    type V = MocksControllerV;

    closed spec fn view(&self) -> MocksControllerV {
        MocksControllerV {
            manager: self.mocks_manager@,
            active_collection_id: match &self.active_collection_id {
                Some(id) => Some(id@),
                None => None,
            },
            cache: actives_view(self.cached_active_routes@),
        }
    }
}

/// The URL's query-string part, extracted.
fn url_query_part_exec(url: &str) -> (r: String)
    ensures
        r@ == url_query_part(url@),
{
    let chars = chars_of(url);
    let q = find_char(&chars, '?');
    proof {
        lemma_first_index_of(chars@, '?');
        assert(q == query_start(url@));
    }
    if q >= chars.len() {
        proof {
            assert(Seq::<char>::empty() =~= url_query_part(url@));
        }
        String::new()
    } else {
        let stop = find_char_from(&chars, '?', q + 1);
        proof {
            let rest = chars@.skip(q as int + 1);
            lemma_first_index_of(rest, '?');
            assert(stop - (q + 1) == first_index_of(rest, '?'));
            assert(stop - (q + 1) == query_start(rest));
        }
        let mut out: Vec<char> = Vec::new();
        let mut i: usize = q + 1;
        while i < stop
            invariant
                q + 1 <= i <= stop <= chars@.len(),
                out@ == chars@.subrange(q as int + 1, i as int),
            decreases stop - i,
        {
            out.push(chars[i]);
            i = i + 1;
            proof {
                assert(out@ =~= chars@.subrange(q as int + 1, i as int));
            }
        }
        proof {
            let rest = chars@.skip(q as int + 1);
            assert(out@ =~= rest.take(query_start(rest)));
        }
        string_of(&out)
    }
}

/// Check whether an active route matches a request.
pub fn route_matches_request(ar: &ActiveRoute, request: &Request) -> (r: bool)
    ensures
        r == route_matches_request_spec(ar@, request@),
{
    if !transport_eq(ar.route.transport, request.transport) {
        return false;
    }
    if transport_eq(ar.route.transport, Transport::Http) {
        match &ar.route.method {
            Some(m) => {
                match &request.method {
                    Some(rm) => {
                        if !method_eq(*rm, *m) {
                            return false;
                        }
                    },
                    None => {
                        return false;
                    },
                }
            },
            None => {},
        }
    }
    let url_result = url_matches(ar.route.url.as_str(), request.url.as_str());
    if !url_result.matched {
        return false;
    }
    let ghost extracted = params_fold(
        Seq::empty(),
        url_match_spec(ar@.route.url, request@.url)->0,
    );
    proof {
        assert(url_result.params@ == extracted);
    }
    match &ar.preset.params {
        Some(expected) => {
            let mut i: usize = 0;
            while i < expected.len()
                invariant
                    i <= expected@.len(),
                    forall|j: int|
                        0 <= j < i ==> sm_get(url_result.params@, (#[trigger] expected@[j]).0)
                            == Some(expected@[j].1),
                decreases expected@.len() - i,
            {
                let key = expected.key_at(i);
                let want = expected.value_at(i);
                match url_result.params.get(key) {
                    Some(got) => {
                        if !(*got == *want) {
                            return false;
                        }
                    },
                    None => {
                        return false;
                    },
                }
                i = i + 1;
            }
        },
        None => {},
    }
    let empty_headers = StringMap::new();
    let req_headers = match &request.headers {
        Some(h) => h,
        None => &empty_headers,
    };
    proof {
        assert(req_headers@ == match request@.headers {
            Some(h) => h,
            None => Seq::<(Seq<char>, Seq<char>)>::empty(),
        });
    }
    match &ar.preset.headers {
        None => {},
        Some(HeadersOrExpression::Values(m)) => {
            if !crate::headers::headers_intersects(Some(req_headers), Some(m)) {
                return false;
            }
        },
        Some(HeadersOrExpression::Expression(e)) => {
            let as_json = crate::intersect::hashmap_to_value(req_headers);
            if !crate::expression::match_with_jmespath(e.as_str(), &as_json) {
                return false;
            }
        },
    }
    let parsed_query: StringMap;
    let req_query = match &request.query {
        Some(q) => q,
        None => {
            parsed_query = parse_query_string(url_query_part_exec(request.url.as_str()).as_str());
            &parsed_query
        },
    };
    proof {
        assert(req_query@ == request_query_map(request@));
    }
    match &ar.preset.query {
        None => {},
        Some(QueryOrExpression::Values(m)) => {
            if !crate::intersect::hashmap_intersects(Some(m), Some(req_query)) {
                return false;
            }
        },
        Some(QueryOrExpression::Expression(e)) => {
            if !crate::query::match_query_with_expression(e.as_str(), req_query) {
                return false;
            }
        },
    }
    match &request.payload {
        Some(body) => match &ar.preset.payload {
            None => true,
            Some(PayloadOrExpression::Value(v)) => crate::payload::payload_matches(
                Some(v),
                None,
                body,
            ),
            Some(PayloadOrExpression::Expression(e)) => crate::payload::payload_matches(
                None,
                Some(e.as_str()),
                body,
            ),
        },
        None => match &ar.preset.payload {
            None => true,
            Some(_) => false,
        },
    }
}

/// Compare two transports.
fn transport_eq(a: Transport, b: Transport) -> (r: bool)
    ensures
        r == (a == b),
{
    match (a, b) {
        (Transport::Http, Transport::Http) => true,
        (Transport::WebSocket, Transport::WebSocket) => true,
        _ => false,
    }
}

/// Compare two HTTP methods.
fn method_eq(a: HttpMethod, b: HttpMethod) -> (r: bool)
    ensures
        r == (a == b),
{
    match (a, b) {
        (HttpMethod::Get, HttpMethod::Get) => true,
        (HttpMethod::Post, HttpMethod::Post) => true,
        (HttpMethod::Put, HttpMethod::Put) => true,
        (HttpMethod::Patch, HttpMethod::Patch) => true,
        (HttpMethod::Delete, HttpMethod::Delete) => true,
        (HttpMethod::Head, HttpMethod::Head) => true,
        (HttpMethod::Options, HttpMethod::Options) => true,
        _ => false,
    }
}

impl MocksController {
    /// Create a controller over a manager; no collection is active and the
    /// cache is empty.
    pub fn new(mocks_manager: MocksManager) -> (r: MocksController)
        ensures
            r@.manager == mocks_manager@,
            r@.active_collection_id is None,
            r@.cache == Seq::<ActiveRouteV>::empty(),
    {
        let r = MocksController {
            mocks_manager,
            active_collection_id: None,
            cached_active_routes: Vec::new(),
        };
        proof {
            assert(r@.cache =~= Seq::<ActiveRouteV>::empty());
        }
        r
    }

    /// Activate a collection: resolve it and replace the cache and the
    /// active identifier; on failure the previous state is kept untouched.
    pub fn use_collection(&mut self, collection_id: &String) -> (r: Result<(), ResolveError>)
        ensures
            final(self)@.manager == old(self)@.manager,
            match r {
                Ok(()) => resolve_spec(old(self)@.manager, collection_id@) is Ok
                    && final(self)@.cache == resolve_spec(
                    old(self)@.manager,
                    collection_id@,
                )->Ok_0 && final(self)@.active_collection_id == Some(collection_id@),
                Err(e) => resolve_spec(old(self)@.manager, collection_id@) == Err::<
                    Seq<ActiveRouteV>,
                    ResolveErrorV,
                >(e@) && final(self)@ == old(self)@,
            },
    {
        match self.mocks_manager.resolve_collection(collection_id) {
            Ok(active_routes) => {
                self.active_collection_id = Some(collection_id.clone());
                self.cached_active_routes = active_routes;
                Ok(())
            },
            Err(e) => Err(e),
        }
    }

    /// Apply ad-hoc HTTP route overrides: every reference is resolved, and
    /// required to target an HTTP route, before any change; on success the
    /// overridden entries are replaced and the new entries appended.
    pub fn use_routes(&mut self, routes: &Vec<String>) -> (r: Result<(), ResolveError>)
        ensures
            final(self)@.manager == old(self)@.manager,
            final(self)@.active_collection_id == old(self)@.active_collection_id,
            match r {
                Ok(()) => {
                    let resolved = override_resolve(
                        old(self)@.manager,
                        routes@.map_values(|s: String| s@),
                        Transport::Http,
                        "Use 'useSocket' instead"@,
                    );
                    resolved is Ok && final(self)@.cache == override_merge(
                        old(self)@.cache,
                        resolved->Ok_0,
                    )
                },
                Err(e) => override_resolve(
                    old(self)@.manager,
                    routes@.map_values(|s: String| s@),
                    Transport::Http,
                    "Use 'useSocket' instead"@,
                ) == Err::<Seq<ActiveRouteV>, ResolveErrorV>(e@) && final(self)@ == old(self)@,
            },
    {
        let suggestion = String::from_str("Use 'useSocket' instead");
        self.apply_overrides(routes, Transport::Http, suggestion)
    }

    /// Apply ad-hoc WebSocket route overrides: every reference is resolved,
    /// and required to target a WebSocket route, before any change; on
    /// success the overridden entries are replaced and the new entries
    /// appended.
    pub fn use_socket(&mut self, routes: &Vec<String>) -> (r: Result<(), ResolveError>)
        ensures
            final(self)@.manager == old(self)@.manager,
            final(self)@.active_collection_id == old(self)@.active_collection_id,
            match r {
                Ok(()) => {
                    let resolved = override_resolve(
                        old(self)@.manager,
                        routes@.map_values(|s: String| s@),
                        Transport::WebSocket,
                        "Use 'useRoutes' instead"@,
                    );
                    resolved is Ok && final(self)@.cache == override_merge(
                        old(self)@.cache,
                        resolved->Ok_0,
                    )
                },
                Err(e) => override_resolve(
                    old(self)@.manager,
                    routes@.map_values(|s: String| s@),
                    Transport::WebSocket,
                    "Use 'useRoutes' instead"@,
                ) == Err::<Seq<ActiveRouteV>, ResolveErrorV>(e@) && final(self)@ == old(self)@,
            },
    {
        let suggestion = String::from_str("Use 'useRoutes' instead");
        self.apply_overrides(routes, Transport::WebSocket, suggestion)
    }

    /// Resolve a batch of references against the required transport and, on
    /// success, merge them into the cache by route identifier.
    fn apply_overrides(
        &mut self,
        routes: &Vec<String>,
        required: Transport,
        suggestion: String,
    ) -> (r: Result<(), ResolveError>)
        ensures
            final(self)@.manager == old(self)@.manager,
            final(self)@.active_collection_id == old(self)@.active_collection_id,
            match r {
                Ok(()) => {
                    let resolved = override_resolve(
                        old(self)@.manager,
                        routes@.map_values(|s: String| s@),
                        required,
                        suggestion@,
                    );
                    resolved is Ok && final(self)@.cache == override_merge(
                        old(self)@.cache,
                        resolved->Ok_0,
                    )
                },
                Err(e) => override_resolve(
                    old(self)@.manager,
                    routes@.map_values(|s: String| s@),
                    required,
                    suggestion@,
                ) == Err::<Seq<ActiveRouteV>, ResolveErrorV>(e@) && final(self)@ == old(self)@,
            },
    {
        let ghost refsv = routes@.map_values(|s: String| s@);
        let mut new_routes: Vec<ActiveRoute> = Vec::new();
        let mut i: usize = 0;
        proof {
            assert(refsv.skip(0) =~= refsv);
            assert(actives_view(new_routes@) =~= Seq::<ActiveRouteV>::empty());
        }
        while i < routes.len()
            invariant
                i <= routes@.len(),
                refsv == routes@.map_values(|s: String| s@),
                self@ == old(self)@,
                override_resolve(self@.manager, refsv, required, suggestion@) == match
                    override_resolve(self@.manager, refsv.skip(i as int), required, suggestion@) {
                    Ok(rest) => Ok::<Seq<ActiveRouteV>, ResolveErrorV>(
                        actives_view(new_routes@) + rest,
                    ),
                    Err(e) => Err::<Seq<ActiveRouteV>, ResolveErrorV>(e),
                },
            decreases routes@.len() - i,
        {
            proof {
                assert(refsv.skip(i as int)[0] == refsv[i as int]);
                assert(refsv.skip(i as int).drop_first() =~= refsv.skip(i as int + 1));
                assert(refsv[i as int] == routes@[i as int]@);
            }
            let ar = match self.mocks_manager.resolve_route_reference(&routes[i]) {
                Ok(ar) => ar,
                Err(e) => {
                    return Err(e);
                },
            };
            if !transport_eq(ar.route.transport, required) {
                return Err(
                    ResolveError::TransportMismatch {
                        route_id: ar.route.id,
                        suggestion: suggestion,
                    },
                );
            }
            let ghost nv = actives_view(new_routes@);
            new_routes.push(ar);
            proof {
                assert(actives_view(new_routes@) =~= nv.push(ar@));
                let rec = override_resolve(
                    self@.manager,
                    refsv.skip(i as int + 1),
                    required,
                    suggestion@,
                );
                match rec {
                    Ok(rest) => {
                        assert(nv + (seq![ar@] + rest) =~= nv.push(ar@) + rest);
                    },
                    Err(_) => {},
                }
            }
            i = i + 1;
        }
        proof {
            assert(refsv.skip(refsv.len() as int) =~= Seq::<Seq<char>>::empty());
            assert(actives_view(new_routes@) + Seq::<ActiveRouteV>::empty() =~= actives_view(
                new_routes@,
            ));
        }
        let ghost newsv = actives_view(new_routes@);
        let ghost cachev = self@.cache;
        let mut merged: Vec<ActiveRoute> = Vec::new();
        let mut k: usize = 0;
        proof {
            assert(cachev.skip(0) =~= cachev);
            assert(actives_view(merged@) =~= Seq::<ActiveRouteV>::empty());
        }
        while k < self.cached_active_routes.len()
            invariant
                k <= self.cached_active_routes@.len(),
                self@ == old(self)@,
                cachev == self@.cache,
                newsv == actives_view(new_routes@),
                keep_not_overridden(cachev, newsv) == actives_view(merged@)
                    + keep_not_overridden(cachev.skip(k as int), newsv),
            decreases self.cached_active_routes@.len() - k,
        {
            proof {
                assert(cachev.skip(k as int)[0] == cachev[k as int]);
                assert(cachev.skip(k as int).drop_first() =~= cachev.skip(k as int + 1));
                assert(cachev[k as int] == self.cached_active_routes@[k as int]@);
            }
            let rid = &self.cached_active_routes[k].route.id;
            let mut overridden = false;
            let mut t: usize = 0;
            while t < new_routes.len()
                invariant
                    t <= new_routes@.len(),
                    newsv == actives_view(new_routes@),
                    overridden ==> contains_route_id(newsv, rid@),
                    !overridden ==> forall|j: int|
                        0 <= j < t ==> (#[trigger] newsv[j]).route.id != rid@,
                decreases new_routes@.len() - t,
            {
                if new_routes[t].route.id == *rid {
                    overridden = true;
                    proof {
                        assert(newsv[t as int] == new_routes@[t as int]@);
                    }
                    break ;
                }
                proof {
                    assert(newsv[t as int] == new_routes@[t as int]@);
                }
                t = t + 1;
            }
            if !overridden {
                proof {
                    assert(!contains_route_id(newsv, rid@));
                }
                let ghost mv = actives_view(merged@);
                let kept = self.cached_active_routes[k].clone();
                merged.push(kept);
                proof {
                    assert(actives_view(merged@) =~= mv.push(cachev[k as int]));
                    assert(mv + (seq![cachev[k as int]] + keep_not_overridden(
                        cachev.skip(k as int + 1),
                        newsv,
                    )) =~= mv.push(cachev[k as int]) + keep_not_overridden(
                        cachev.skip(k as int + 1),
                        newsv,
                    ));
                }
            }
            k = k + 1;
        }
        proof {
            assert(cachev.skip(cachev.len() as int) =~= Seq::<ActiveRouteV>::empty());
            assert(actives_view(merged@) + Seq::<ActiveRouteV>::empty() =~= actives_view(
                merged@,
            ));
            assert(actives_view(merged@) == keep_not_overridden(cachev, newsv));
        }
        let ghost mergedv = actives_view(merged@);
        let mut m: usize = 0;
        while m < new_routes.len()
            invariant
                m <= new_routes@.len(),
                self@ == old(self)@,
                newsv == actives_view(new_routes@),
                actives_view(merged@) == mergedv + newsv.take(m as int),
            decreases new_routes@.len() - m,
        {
            let ghost cur = actives_view(merged@);
            let ar = new_routes[m].clone();
            merged.push(ar);
            proof {
                assert(newsv[m as int] == new_routes@[m as int]@);
                assert(actives_view(merged@) =~= cur.push(newsv[m as int]));
                assert(mergedv + newsv.take(m as int + 1) =~= cur.push(newsv[m as int]));
            }
            m = m + 1;
        }
        proof {
            assert(newsv.take(newsv.len() as int) =~= newsv);
        }
        self.cached_active_routes = merged;
        proof {
            assert(final(self)@.cache == override_merge(cachev, newsv));
        }
        Ok(())
    }

    /// The cached active routes, in order.
    pub fn get_active_routes(&self) -> (r: &Vec<ActiveRoute>)
        ensures
            actives_view(r@) == self@.cache,
    {
        &self.cached_active_routes
    }

    /// The identifier of the active collection, if one is active.
    pub fn active_collection_id(&self) -> (r: Option<&String>)
        ensures
            match r {
                Some(id) => self@.active_collection_id == Some(id@),
                None => self@.active_collection_id is None,
            },
    {
        match &self.active_collection_id {
            Some(id) => Some(id),
            None => None,
        }
    }

    /// Find the first cached active route that matches the request.
    pub fn find_route(&self, request: &Request) -> (r: Option<&ActiveRoute>)
        ensures
            match r {
                Some(ar) => find_route_spec(self@.cache, request@) == Some(ar@),
                None => find_route_spec(self@.cache, request@) is None,
            },
    {
        let ghost cache = self@.cache;
        let mut i: usize = 0;
        while i < self.cached_active_routes.len()
            invariant
                i <= self.cached_active_routes@.len(),
                cache == self@.cache,
                forall|j: int|
                    0 <= j < i ==> !route_matches_request_spec(#[trigger] cache[j], request@),
            decreases self.cached_active_routes@.len() - i,
        {
            proof {
                assert(cache[i as int] == self.cached_active_routes@[i as int]@);
            }
            if route_matches_request(&self.cached_active_routes[i], request) {
                proof {
                    lemma_find_route_at(cache, request@, i as int);
                }
                return Some(&self.cached_active_routes[i]);
            }
            i = i + 1;
        }
        proof {
            lemma_find_route_at(cache, request@, i as int);
        }
        None
    }
}

} // verus!
