//! Route, preset, variant and collection definitions, and route references.

use vstd::prelude::*;
use vstd::string::*;
use crate::json::{Value, ValueV};
use crate::strmap::StringMap;
use crate::text::{split_char, split_chars, string_of};

verus! {

/// Transport of a route.
#[derive(Clone, Copy, PartialEq, Eq, Structural, Debug)]
pub enum Transport {
    Http,
    WebSocket,
}

/// HTTP method of a route.
#[derive(Clone, Copy, PartialEq, Eq, Structural, Debug)]
pub enum HttpMethod {
    Get,
    Post,
    Put,
    Patch,
    Delete,
    Head,
    Options,
}

/// A query criterion: either an expected parameter map or an expression.
#[derive(Debug)]
pub enum QueryOrExpression {
    Values(StringMap),
    Expression(String),
}

/// View of a query criterion.
pub enum QueryOrExpressionV {
    Values(Seq<(Seq<char>, Seq<char>)>),
    Expression(Seq<char>),
}

impl View for QueryOrExpression {
    type V = QueryOrExpressionV;

    open spec fn view(&self) -> QueryOrExpressionV {
        match self {
            QueryOrExpression::Values(m) => QueryOrExpressionV::Values(m@),
            QueryOrExpression::Expression(e) => QueryOrExpressionV::Expression(e@),
        }
    }
}

impl Clone for QueryOrExpression {
    fn clone(&self) -> (r: Self)
        ensures
            r@ == self@,
    {
        match self {
            QueryOrExpression::Values(m) => QueryOrExpression::Values(m.clone()),
            QueryOrExpression::Expression(e) => QueryOrExpression::Expression(e.clone()),
        }
    }
}

/// A headers criterion: either an expected header map or an expression.
#[derive(Debug)]
pub enum HeadersOrExpression {
    Values(StringMap),
    Expression(String),
}

/// View of a headers criterion.
pub enum HeadersOrExpressionV {
    Values(Seq<(Seq<char>, Seq<char>)>),
    Expression(Seq<char>),
}

impl View for HeadersOrExpression {
    type V = HeadersOrExpressionV;

    open spec fn view(&self) -> HeadersOrExpressionV {
        match self {
            HeadersOrExpression::Values(m) => HeadersOrExpressionV::Values(m@),
            HeadersOrExpression::Expression(e) => HeadersOrExpressionV::Expression(e@),
        }
    }
}

impl Clone for HeadersOrExpression {
    fn clone(&self) -> (r: Self)
        ensures
            r@ == self@,
    {
        match self {
            HeadersOrExpression::Values(m) => HeadersOrExpression::Values(m.clone()),
            HeadersOrExpression::Expression(e) => HeadersOrExpression::Expression(e.clone()),
        }
    }
}

/// A payload criterion: either an expected value or an expression.
#[derive(Debug)]
pub enum PayloadOrExpression {
    Value(Value),
    Expression(String),
}

/// View of a payload criterion.
pub enum PayloadOrExpressionV {
    Value(ValueV),
    Expression(Seq<char>),
}

impl View for PayloadOrExpression {
    type V = PayloadOrExpressionV;

    open spec fn view(&self) -> PayloadOrExpressionV {
        match self {
            PayloadOrExpression::Value(v) => PayloadOrExpressionV::Value(v@),
            PayloadOrExpression::Expression(e) => PayloadOrExpressionV::Expression(e@),
        }
    }
}

impl Clone for PayloadOrExpression {
    fn clone(&self) -> (r: Self)
        ensures
            r@ == self@,
    {
        match self {
            PayloadOrExpression::Value(v) => PayloadOrExpression::Value(v.clone()),
            PayloadOrExpression::Expression(e) => PayloadOrExpression::Expression(e.clone()),
        }
    }
}

/// A response variant under a preset; its fields shape the response and are
/// passed through unchanged by matching.
#[derive(Debug)]
pub struct Variant {
    pub id: String,
    pub status: Option<u16>,
    pub headers: Option<StringMap>,
    pub body: Option<Value>,
}

/// View of a response variant.
pub struct VariantV {
    pub id: Seq<char>,
    pub status: Option<u16>,
    pub headers: Option<Seq<(Seq<char>, Seq<char>)>>,
    pub body: Option<ValueV>,
}

impl View for Variant {
    type V = VariantV;

    open spec fn view(&self) -> VariantV {
        VariantV {
            id: self.id@,
            status: self.status,
            headers: match &self.headers {
                Some(h) => Some(h@),
                None => None,
            },
            body: match &self.body {
                Some(b) => Some(b@),
                None => None,
            },
        }
    }
}

impl Clone for Variant {
    fn clone(&self) -> (r: Self)
        ensures
            r@ == self@,
    {
        Variant {
            id: self.id.clone(),
            status: match &self.status {
                Some(s) => Some(*s),
                None => None,
            },
            headers: match &self.headers {
                Some(h) => Some(h.clone()),
                None => None,
            },
            body: match &self.body {
                Some(b) => Some(b.clone()),
                None => None,
            },
        }
    }
}

/// A request-matching preset under a route, with its response variants.
#[derive(Debug)]
pub struct Preset {
    pub id: String,
    pub params: Option<StringMap>,
    pub query: Option<QueryOrExpression>,
    pub headers: Option<HeadersOrExpression>,
    pub payload: Option<PayloadOrExpression>,
    pub variants: Vec<Variant>,
}

/// View of a preset.
pub struct PresetV {
    pub id: Seq<char>,
    pub params: Option<Seq<(Seq<char>, Seq<char>)>>,
    pub query: Option<QueryOrExpressionV>,
    pub headers: Option<HeadersOrExpressionV>,
    pub payload: Option<PayloadOrExpressionV>,
    pub variants: Seq<VariantV>,
}

/// View of a variant list.
pub open spec fn variants_view(vs: Seq<Variant>) -> Seq<VariantV> {
    Seq::new(vs.len(), |i: int| vs[i]@)
}

impl View for Preset {
    type V = PresetV;

    open spec fn view(&self) -> PresetV {
        PresetV {
            id: self.id@,
            params: match &self.params {
                Some(p) => Some(p@),
                None => None,
            },
            query: match &self.query {
                Some(q) => Some(q@),
                None => None,
            },
            headers: match &self.headers {
                Some(h) => Some(h@),
                None => None,
            },
            payload: match &self.payload {
                Some(p) => Some(p@),
                None => None,
            },
            variants: variants_view(self.variants@),
        }
    }
}

impl Clone for Preset {
    fn clone(&self) -> (r: Self)
        ensures
            r@ == self@,
    {
        let mut variants: Vec<Variant> = Vec::new();
        let mut i: usize = 0;
        while i < self.variants.len()
            invariant
                i <= self.variants@.len(),
                variants@.len() == i,
                forall|j: int| 0 <= j < i ==> (#[trigger] variants@[j])@ == self.variants@[j]@,
            decreases self.variants@.len() - i,
        {
            let v = self.variants[i].clone();
            variants.push(v);
            i = i + 1;
        }
        let r = Preset {
            id: self.id.clone(),
            params: match &self.params {
                Some(p) => Some(p.clone()),
                None => None,
            },
            query: match &self.query {
                Some(q) => Some(q.clone()),
                None => None,
            },
            headers: match &self.headers {
                Some(h) => Some(h.clone()),
                None => None,
            },
            payload: match &self.payload {
                Some(p) => Some(p.clone()),
                None => None,
            },
            variants,
        };
        proof {
            assert(variants_view(r.variants@) =~= variants_view(self.variants@));
        }
        r
    }
}

/// A mock route: a URL template, a transport, an optional method for HTTP
/// routes, and its presets.
#[derive(Debug)]
pub struct Route {
    pub id: String,
    pub url: String,
    pub transport: Transport,
    pub method: Option<HttpMethod>,
    pub presets: Vec<Preset>,
}

/// View of a route.
pub struct RouteV {
    pub id: Seq<char>,
    pub url: Seq<char>,
    pub transport: Transport,
    pub method: Option<HttpMethod>,
    pub presets: Seq<PresetV>,
}

/// View of a preset list.
pub open spec fn presets_view(ps: Seq<Preset>) -> Seq<PresetV> {
    Seq::new(ps.len(), |i: int| ps[i]@)
}

impl View for Route {
    type V = RouteV;

    open spec fn view(&self) -> RouteV {
        RouteV {
            id: self.id@,
            url: self.url@,
            transport: self.transport,
            method: self.method,
            presets: presets_view(self.presets@),
        }
    }
}

impl Clone for Route {
    fn clone(&self) -> (r: Self)
        ensures
            r@ == self@,
    {
        let mut presets: Vec<Preset> = Vec::new();
        let mut i: usize = 0;
        while i < self.presets.len()
            invariant
                i <= self.presets@.len(),
                presets@.len() == i,
                forall|j: int| 0 <= j < i ==> (#[trigger] presets@[j])@ == self.presets@[j]@,
            decreases self.presets@.len() - i,
        {
            let p = self.presets[i].clone();
            presets.push(p);
            i = i + 1;
        }
        let r = Route {
            id: self.id.clone(),
            url: self.url.clone(),
            transport: self.transport,
            method: match &self.method {
                Some(m) => Some(*m),
                None => None,
            },
            presets,
        };
        proof {
            assert(presets_view(r.presets@) =~= presets_view(self.presets@));
        }
        r
    }
}

/// A collection: a named selection of route references, optionally
/// inheriting from a parent collection.
#[derive(Debug)]
pub struct Collection {
    pub id: String,
    pub from: Option<String>,
    pub routes: Vec<String>,
}

/// View of a collection.
pub struct CollectionV {
    pub id: Seq<char>,
    pub from: Option<Seq<char>>,
    pub routes: Seq<Seq<char>>,
}

impl View for Collection {
    type V = CollectionV;

    open spec fn view(&self) -> CollectionV {
        CollectionV {
            id: self.id@,
            from: match &self.from {
                Some(f) => Some(f@),
                None => None,
            },
            routes: Seq::new(self.routes@.len(), |i: int| self.routes@[i]@),
        }
    }
}

impl Clone for Collection {
    fn clone(&self) -> (r: Self)
        ensures
            r@ == self@,
    {
        let mut routes: Vec<String> = Vec::new();
        let mut i: usize = 0;
        while i < self.routes.len()
            invariant
                i <= self.routes@.len(),
                routes@.len() == i,
                forall|j: int| 0 <= j < i ==> (#[trigger] routes@[j])@ == self.routes@[j]@,
            decreases self.routes@.len() - i,
        {
            let s = self.routes[i].clone();
            routes.push(s);
            i = i + 1;
        }
        let r = Collection {
            id: self.id.clone(),
            from: match &self.from {
                Some(f) => Some(f.clone()),
                None => None,
            },
            routes,
        };
        proof {
            assert(r@.routes =~= self@.routes);
        }
        r
    }
}

/// A parsed route reference: route, preset and variant identifiers.
#[derive(Debug)]
pub struct RouteReference {
    pub route_id: String,
    pub preset_id: String,
    pub variant_id: String,
}

/// The parse of a route reference string: exactly two colons separating
/// three non-empty identifiers; any other shape is invalid.
pub open spec fn parse_ref_spec(s: Seq<char>) -> Option<(Seq<char>, Seq<char>, Seq<char>)> {
    let parts = split_char(s, ':');
    if parts.len() == 3 && parts[0].len() > 0 && parts[1].len() > 0 && parts[2].len() > 0 {
        Some((parts[0], parts[1], parts[2]))
    } else {
        None
    }
}

impl RouteReference {
    /// Parse a `route_id:preset_id:variant_id` reference string.
    pub fn parse(s: &str) -> (r: Option<RouteReference>)
        ensures
            match r {
                Some(rr) => parse_ref_spec(s@) == Some((rr.route_id@, rr.preset_id@, rr.variant_id@)),
                None => parse_ref_spec(s@) is None,
            },
    {
        let chars = crate::text::chars_of(s);
        let parts = split_chars(&chars, ':');
        proof {
            assert(parts@.map_values(|p: Vec<char>| p@) == split_char(s@, ':'));
        }
        if parts.len() != 3 {
            return None;
        }
        proof {
            assert(split_char(s@, ':')[0] == parts@[0]@);
            assert(split_char(s@, ':')[1] == parts@[1]@);
            assert(split_char(s@, ':')[2] == parts@[2]@);
        }
        if parts[0].len() == 0 || parts[1].len() == 0 || parts[2].len() == 0 {
            return None;
        }
        Some(
            RouteReference {
                route_id: string_of(&parts[0]),
                preset_id: string_of(&parts[1]),
                variant_id: string_of(&parts[2]),
            },
        )
    }
}

} // verus!
