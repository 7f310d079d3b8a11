//! Storage and resolution of collections and routes.
//!
//! The manager stores routes and collections keyed by their identifiers
//! (last insert wins) and resolves a collection — walking its inheritance
//! chain, resolving every route reference, and flattening overrides — into
//! the ordered list of active routes.

use vstd::prelude::*;
use vstd::string::*;
use crate::types::{
    parse_ref_spec, Collection, CollectionV, Preset, PresetV, Route, RouteReference, RouteV,
    Variant, VariantV,
};

verus! {

/// A fully resolved route: the route, the selected preset and the selected
/// variant.
#[derive(Debug)]
pub struct ActiveRoute {
    pub route: Route,
    pub preset: Preset,
    pub variant: Variant,
}

/// View of an active route.
pub struct ActiveRouteV {
    pub route: RouteV,
    pub preset: PresetV,
    pub variant: VariantV,
}

impl View for ActiveRoute {
    type V = ActiveRouteV;

    open spec fn view(&self) -> ActiveRouteV {
        ActiveRouteV { route: self.route@, preset: self.preset@, variant: self.variant@ }
    }
}

impl Clone for ActiveRoute {
    fn clone(&self) -> (r: Self)
        ensures
            r@ == self@,
    {
        ActiveRoute {
            route: self.route.clone(),
            preset: self.preset.clone(),
            variant: self.variant.clone(),
        }
    }
}

/// View of an active-route list.
pub open spec fn actives_view(ars: Seq<ActiveRoute>) -> Seq<ActiveRouteV> {
    Seq::new(ars.len(), |i: int| ars[i]@)
}

/// An error of collection resolution or of a route override.
#[derive(Debug)]
pub enum ResolveError {
    CollectionNotFound { collection_id: String },
    RouteNotFound { route_id: String },
    PresetNotFound { route_id: String, preset_id: String },
    VariantNotFound { route_id: String, preset_id: String, variant_id: String },
    InvalidRouteReference { reference: String },
    CircularDependency { collection_id: String },
    TransportMismatch { route_id: String, suggestion: String },
}

/// View of a resolution error.
pub enum ResolveErrorV {
    CollectionNotFound { collection_id: Seq<char> },
    RouteNotFound { route_id: Seq<char> },
    PresetNotFound { route_id: Seq<char>, preset_id: Seq<char> },
    VariantNotFound { route_id: Seq<char>, preset_id: Seq<char>, variant_id: Seq<char> },
    InvalidRouteReference { reference: Seq<char> },
    CircularDependency { collection_id: Seq<char> },
    TransportMismatch { route_id: Seq<char>, suggestion: Seq<char> },
}

impl View for ResolveError {
    type V = ResolveErrorV;

    open spec fn view(&self) -> ResolveErrorV {
        match self {
            ResolveError::CollectionNotFound { collection_id } => ResolveErrorV::CollectionNotFound {
                collection_id: collection_id@,
            },
            ResolveError::RouteNotFound { route_id } => ResolveErrorV::RouteNotFound {
                route_id: route_id@,
            },
            ResolveError::PresetNotFound { route_id, preset_id } => ResolveErrorV::PresetNotFound {
                route_id: route_id@,
                preset_id: preset_id@,
            },
            ResolveError::VariantNotFound {
                route_id,
                preset_id,
                variant_id,
            } => ResolveErrorV::VariantNotFound {
                route_id: route_id@,
                preset_id: preset_id@,
                variant_id: variant_id@,
            },
            ResolveError::InvalidRouteReference { reference } => ResolveErrorV::InvalidRouteReference {
                reference: reference@,
            },
            ResolveError::CircularDependency { collection_id } => ResolveErrorV::CircularDependency {
                collection_id: collection_id@,
            },
            ResolveError::TransportMismatch { route_id, suggestion } => ResolveErrorV::TransportMismatch {
                route_id: route_id@,
                suggestion: suggestion@,
            },
        }
    }
}

/// The human-readable description of a resolution error.
pub open spec fn message_spec(e: ResolveErrorV) -> Seq<char> {
    match e {
        ResolveErrorV::CollectionNotFound { collection_id } => "Collection not found: "@
            + collection_id,
        ResolveErrorV::RouteNotFound { route_id } => "Route not found: "@ + route_id,
        ResolveErrorV::PresetNotFound { route_id, preset_id } => "Preset '"@ + preset_id
            + "' not found in route '"@ + route_id + "'"@,
        ResolveErrorV::VariantNotFound { route_id, preset_id, variant_id } => "Variant '"@
            + variant_id + "' not found in preset '"@ + preset_id + "' of route '"@ + route_id
            + "'"@,
        ResolveErrorV::InvalidRouteReference { reference } => "Invalid route reference format: "@
            + reference,
        ResolveErrorV::CircularDependency { collection_id } =>
            "Circular dependency detected involving collection: "@ + collection_id,
        ResolveErrorV::TransportMismatch { route_id, suggestion } => "Transport mismatch for route '"@
            + route_id + "': "@ + suggestion,
    }
}

impl ResolveError {
    /// Render the error as text.
    pub fn message(&self) -> (r: String)
        ensures
            r@ == message_spec(self@),
    {
        match self {
            ResolveError::CollectionNotFound { collection_id } => {
                let mut s = String::from_str("Collection not found: ");
                s.append(collection_id.as_str());
                s
            },
            ResolveError::RouteNotFound { route_id } => {
                let mut s = String::from_str("Route not found: ");
                s.append(route_id.as_str());
                s
            },
            ResolveError::PresetNotFound { route_id, preset_id } => {
                let mut s = String::from_str("Preset '");
                s.append(preset_id.as_str());
                s.append("' not found in route '");
                s.append(route_id.as_str());
                s.append("'");
                s
            },
            ResolveError::VariantNotFound { route_id, preset_id, variant_id } => {
                let mut s = String::from_str("Variant '");
                s.append(variant_id.as_str());
                s.append("' not found in preset '");
                s.append(preset_id.as_str());
                s.append("' of route '");
                s.append(route_id.as_str());
                s.append("'");
                s
            },
            ResolveError::InvalidRouteReference { reference } => {
                let mut s = String::from_str("Invalid route reference format: ");
                s.append(reference.as_str());
                s
            },
            ResolveError::CircularDependency { collection_id } => {
                let mut s = String::from_str(
                    "Circular dependency detected involving collection: ",
                );
                s.append(collection_id.as_str());
                s
            },
            ResolveError::TransportMismatch { route_id, suggestion } => {
                let mut s = String::from_str("Transport mismatch for route '");
                s.append(route_id.as_str());
                s.append("': ");
                s.append(suggestion.as_str());
                s
            },
        }
    }
}

/// First collection carrying the given identifier, if any.
pub open spec fn lookup_collection(cs: Seq<CollectionV>, id: Seq<char>) -> Option<CollectionV>
    decreases cs.len(),
{
    if cs.len() == 0 {
        None
    } else if cs[0].id == id {
        Some(cs[0])
    } else {
        lookup_collection(cs.drop_first(), id)
    }
}

/// `lookup_collection` is pinned down by the position of the first match.
pub proof fn lemma_lookup_collection_at(cs: Seq<CollectionV>, id: Seq<char>, i: int)
    requires
        0 <= i <= cs.len(),
        forall|j: int| 0 <= j < i ==> (#[trigger] cs[j]).id != id,
        i < cs.len() ==> cs[i].id == id,
    ensures
        lookup_collection(cs, id) == if i < cs.len() {
            Some(cs[i])
        } else {
            None::<CollectionV>
        },
    decreases cs.len(),
{
    if cs.len() > 0 && cs[0].id != id {
        assert forall|j: int| 0 <= j < i - 1 implies (#[trigger] cs.drop_first()[j]).id != id by {
            assert(cs[j + 1].id != id);
        }
        if i - 1 < cs.drop_first().len() {
            assert(cs.drop_first()[i - 1] == cs[i]);
        }
        lemma_lookup_collection_at(cs.drop_first(), id, i - 1);
    }
}

/// First route carrying the given identifier, if any.
pub open spec fn lookup_route(rs: Seq<RouteV>, id: Seq<char>) -> Option<RouteV>
    decreases rs.len(),
{
    if rs.len() == 0 {
        None
    } else if rs[0].id == id {
        Some(rs[0])
    } else {
        lookup_route(rs.drop_first(), id)
    }
}

/// `lookup_route` is pinned down by the position of the first match.
pub proof fn lemma_lookup_route_at(rs: Seq<RouteV>, id: Seq<char>, i: int)
    requires
        0 <= i <= rs.len(),
        forall|j: int| 0 <= j < i ==> (#[trigger] rs[j]).id != id,
        i < rs.len() ==> rs[i].id == id,
    ensures
        lookup_route(rs, id) == if i < rs.len() {
            Some(rs[i])
        } else {
            None::<RouteV>
        },
    decreases rs.len(),
{
    if rs.len() > 0 && rs[0].id != id {
        assert forall|j: int| 0 <= j < i - 1 implies (#[trigger] rs.drop_first()[j]).id != id by {
            assert(rs[j + 1].id != id);
        }
        if i - 1 < rs.drop_first().len() {
            assert(rs.drop_first()[i - 1] == rs[i]);
        }
        lemma_lookup_route_at(rs.drop_first(), id, i - 1);
    }
}

/// First preset carrying the given identifier, if any.
pub open spec fn find_preset(ps: Seq<PresetV>, id: Seq<char>) -> Option<PresetV>
    decreases ps.len(),
{
    if ps.len() == 0 {
        None
    } else if ps[0].id == id {
        Some(ps[0])
    } else {
        find_preset(ps.drop_first(), id)
    }
}

/// `find_preset` is pinned down by the position of the first match.
pub proof fn lemma_find_preset_at(ps: Seq<PresetV>, id: Seq<char>, i: int)
    requires
        0 <= i <= ps.len(),
        forall|j: int| 0 <= j < i ==> (#[trigger] ps[j]).id != id,
        i < ps.len() ==> ps[i].id == id,
    ensures
        find_preset(ps, id) == if i < ps.len() {
            Some(ps[i])
        } else {
            None::<PresetV>
        },
    decreases ps.len(),
{
    if ps.len() > 0 && ps[0].id != id {
        assert forall|j: int| 0 <= j < i - 1 implies (#[trigger] ps.drop_first()[j]).id != id by {
            assert(ps[j + 1].id != id);
        }
        if i - 1 < ps.drop_first().len() {
            assert(ps.drop_first()[i - 1] == ps[i]);
        }
        lemma_find_preset_at(ps.drop_first(), id, i - 1);
    }
}

/// First variant carrying the given identifier, if any.
pub open spec fn find_variant(vs: Seq<VariantV>, id: Seq<char>) -> Option<VariantV>
    decreases vs.len(),
{
    if vs.len() == 0 {
        None
    } else if vs[0].id == id {
        Some(vs[0])
    } else {
        find_variant(vs.drop_first(), id)
    }
}

/// `find_variant` is pinned down by the position of the first match.
pub proof fn lemma_find_variant_at(vs: Seq<VariantV>, id: Seq<char>, i: int)
    requires
        0 <= i <= vs.len(),
        forall|j: int| 0 <= j < i ==> (#[trigger] vs[j]).id != id,
        i < vs.len() ==> vs[i].id == id,
    ensures
        find_variant(vs, id) == if i < vs.len() {
            Some(vs[i])
        } else {
            None::<VariantV>
        },
    decreases vs.len(),
{
    if vs.len() > 0 && vs[0].id != id {
        assert forall|j: int| 0 <= j < i - 1 implies (#[trigger] vs.drop_first()[j]).id != id by {
            assert(vs[j + 1].id != id);
        }
        if i - 1 < vs.drop_first().len() {
            assert(vs.drop_first()[i - 1] == vs[i]);
        }
        lemma_find_variant_at(vs.drop_first(), id, i - 1);
    }
}

/// View of a collection list.
pub open spec fn collections_view(cs: Seq<Collection>) -> Seq<CollectionV> {
    Seq::new(cs.len(), |i: int| cs[i]@)
}

/// View of a route list.
pub open spec fn routes_view(rs: Seq<Route>) -> Seq<RouteV> {
    Seq::new(rs.len(), |i: int| rs[i]@)
}

/// View of a manager: its collection and route tables.
pub struct MocksManagerV {
    pub collections: Seq<CollectionV>,
    pub routes: Seq<RouteV>,
}

/// Storage for collections and routes, keyed by identifier with
/// last-insert-wins semantics.
pub struct MocksManager {
    collections: Vec<Collection>,
    routes: Vec<Route>,
}

impl View for MocksManager {
    type V = MocksManagerV;

    closed spec fn view(&self) -> MocksManagerV {
        MocksManagerV {
            collections: collections_view(self.collections@),
            routes: routes_view(self.routes@),
        }
    }
}

/// Identifiers are unique within each table.
pub open spec fn manager_wf(m: MocksManagerV) -> bool {
    &&& forall|i: int, j: int|
        0 <= i < j < m.collections.len() ==> (#[trigger] m.collections[i]).id != (
        #[trigger] m.collections[j]).id
    &&& forall|i: int, j: int|
        0 <= i < j < m.routes.len() ==> (#[trigger] m.routes[i]).id != (#[trigger] m.routes[j]).id
}

impl MocksManager {
    /// Create an empty manager.
    pub fn new() -> (r: MocksManager)
        ensures
            r@.collections == Seq::<CollectionV>::empty(),
            r@.routes == Seq::<RouteV>::empty(),
            manager_wf(r@),
    {
        let r = MocksManager { collections: Vec::new(), routes: Vec::new() };
        proof {
            assert(r@.collections =~= Seq::<CollectionV>::empty());
            assert(r@.routes =~= Seq::<RouteV>::empty());
        }
        r
    }

    /// Add a collection; a collection with the same identifier is replaced.
    pub fn add_collection(&mut self, collection: Collection)
        requires
            manager_wf(old(self)@),
        ensures
            manager_wf(final(self)@),
            final(self)@.routes == old(self)@.routes,
            final(self)@.collections == upsert_collection(old(self)@.collections, collection@),
            lookup_collection(final(self)@.collections, collection@.id) == Some(collection@),
    {
        let ghost cs = self@.collections;
        let mut i: usize = 0;
        while i < self.collections.len()
            invariant
                i <= self.collections@.len(),
                self@.collections == cs,
                cs == old(self)@.collections,
                self@.routes == old(self)@.routes,
                forall|j: int| 0 <= j < i ==> (#[trigger] cs[j]).id != collection@.id,
            decreases self.collections@.len() - i,
        {
            if self.collections[i].id == collection.id {
                proof {
                    lemma_upsert_collection_at(cs, collection@, i as int);
                }
                self.collections.set(i, collection);
                proof {
                    assert(self@.collections =~= cs.update(i as int, collection@));
                    assert(self@.routes =~= old(self)@.routes);
                    lemma_lookup_collection_at(self@.collections, collection@.id, i as int);
                    assert forall|x: int|
                        0 <= x < self@.collections.len() implies (#[trigger] self@.collections[x]).id
                        == cs[x].id by {
                        if x != i {
                            assert(self@.collections[x] == cs[x]);
                        }
                    }
                }
                return ;
            }
            i = i + 1;
        }
        proof {
            lemma_upsert_collection_at(cs, collection@, cs.len() as int);
        }
        self.collections.push(collection);
        proof {
            assert(self@.collections =~= cs.push(collection@));
            assert(self@.routes =~= old(self)@.routes);
            lemma_lookup_collection_at(self@.collections, collection@.id, cs.len() as int);
        }
    }

    /// Add several collections, in order.
    pub fn add_collections(&mut self, collections: &Vec<Collection>)
        requires
            manager_wf(old(self)@),
        ensures
            manager_wf(final(self)@),
            final(self)@.routes == old(self)@.routes,
            final(self)@.collections == upsert_collections(
                old(self)@.collections,
                collections_view(collections@),
            ),
    {
        let ghost newcs = collections_view(collections@);
        let mut i: usize = 0;
        proof {
            assert(newcs.take(0) =~= Seq::<CollectionV>::empty());
        }
        while i < collections.len()
            invariant
                i <= collections@.len(),
                manager_wf(self@),
                self@.routes == old(self)@.routes,
                self@.collections == upsert_collections(old(self)@.collections, newcs.take(i as int)),
            decreases collections@.len() - i,
        {
            let ghost taken = newcs.take(i as int);
            let c = collections[i].clone();
            self.add_collection(c);
            proof {
                assert(newcs[i as int] == collections@[i as int]@);
                lemma_upsert_collections_push(old(self)@.collections, taken, newcs[i as int]);
                assert(taken.push(newcs[i as int]) =~= newcs.take(i as int + 1));
            }
            i = i + 1;
        }
        proof {
            assert(newcs.take(newcs.len() as int) =~= newcs);
        }
    }

    /// Add a route; a route with the same identifier is replaced.
    pub fn add_route(&mut self, route: Route)
        requires
            manager_wf(old(self)@),
        ensures
            manager_wf(final(self)@),
            final(self)@.collections == old(self)@.collections,
            final(self)@.routes == upsert_route(old(self)@.routes, route@),
            lookup_route(final(self)@.routes, route@.id) == Some(route@),
    {
        let ghost rs = self@.routes;
        let mut i: usize = 0;
        while i < self.routes.len()
            invariant
                i <= self.routes@.len(),
                self@.routes == rs,
                rs == old(self)@.routes,
                self@.collections == old(self)@.collections,
                forall|j: int| 0 <= j < i ==> (#[trigger] rs[j]).id != route@.id,
            decreases self.routes@.len() - i,
        {
            if self.routes[i].id == route.id {
                proof {
                    lemma_upsert_route_at(rs, route@, i as int);
                }
                self.routes.set(i, route);
                proof {
                    assert(self@.routes =~= rs.update(i as int, route@));
                    assert(self@.collections =~= old(self)@.collections);
                    lemma_lookup_route_at(self@.routes, route@.id, i as int);
                    assert forall|x: int|
                        0 <= x < self@.routes.len() implies (#[trigger] self@.routes[x]).id
                        == rs[x].id by {
                        if x != i {
                            assert(self@.routes[x] == rs[x]);
                        }
                    }
                }
                return ;
            }
            i = i + 1;
        }
        proof {
            lemma_upsert_route_at(rs, route@, rs.len() as int);
        }
        self.routes.push(route);
        proof {
            assert(self@.routes =~= rs.push(route@));
            assert(self@.collections =~= old(self)@.collections);
            lemma_lookup_route_at(self@.routes, route@.id, rs.len() as int);
        }
    }

    /// Add several routes, in order.
    pub fn add_routes(&mut self, routes: &Vec<Route>)
        requires
            manager_wf(old(self)@),
        ensures
            manager_wf(final(self)@),
            final(self)@.collections == old(self)@.collections,
            final(self)@.routes == upsert_routes(old(self)@.routes, routes_view(routes@)),
    {
        let ghost newrs = routes_view(routes@);
        let mut i: usize = 0;
        proof {
            assert(newrs.take(0) =~= Seq::<RouteV>::empty());
        }
        while i < routes.len()
            invariant
                i <= routes@.len(),
                manager_wf(self@),
                self@.collections == old(self)@.collections,
                self@.routes == upsert_routes(old(self)@.routes, newrs.take(i as int)),
            decreases routes@.len() - i,
        {
            let ghost taken = newrs.take(i as int);
            let r = routes[i].clone();
            self.add_route(r);
            proof {
                assert(newrs[i as int] == routes@[i as int]@);
                lemma_upsert_routes_push(old(self)@.routes, taken, newrs[i as int]);
                assert(taken.push(newrs[i as int]) =~= newrs.take(i as int + 1));
            }
            i = i + 1;
        }
        proof {
            assert(newrs.take(newrs.len() as int) =~= newrs);
        }
    }
}

impl Default for MocksManager {
    fn default() -> (r: Self)
        ensures
            r@.collections == Seq::<CollectionV>::empty(),
            r@.routes == Seq::<RouteV>::empty(),
            manager_wf(r@),
    {
        MocksManager::new()
    }
}

/// A collection table after setting one collection: the first entry with
/// that identifier is replaced in place, or a new entry is appended.
pub open spec fn upsert_collection(cs: Seq<CollectionV>, c: CollectionV) -> Seq<CollectionV>
    decreases cs.len(),
{
    if cs.len() == 0 {
        seq![c]
    } else if cs[0].id == c.id {
        seq![c] + cs.drop_first()
    } else {
        seq![cs[0]] + upsert_collection(cs.drop_first(), c)
    }
}

/// A collection table after setting several collections, in order.
pub open spec fn upsert_collections(cs: Seq<CollectionV>, news: Seq<CollectionV>) -> Seq<
    CollectionV,
>
    decreases news.len(),
{
    if news.len() == 0 {
        cs
    } else {
        upsert_collections(upsert_collection(cs, news[0]), news.drop_first())
    }
}

/// A route table after setting one route.
pub open spec fn upsert_route(rs: Seq<RouteV>, r: RouteV) -> Seq<RouteV>
    decreases rs.len(),
{
    if rs.len() == 0 {
        seq![r]
    } else if rs[0].id == r.id {
        seq![r] + rs.drop_first()
    } else {
        seq![rs[0]] + upsert_route(rs.drop_first(), r)
    }
}

/// A route table after setting several routes, in order.
pub open spec fn upsert_routes(rs: Seq<RouteV>, news: Seq<RouteV>) -> Seq<RouteV>
    decreases news.len(),
{
    if news.len() == 0 {
        rs
    } else {
        upsert_routes(upsert_route(rs, news[0]), news.drop_first())
    }
}

proof fn lemma_upsert_collection_at(cs: Seq<CollectionV>, c: CollectionV, i: int)
    requires
        0 <= i <= cs.len(),
        forall|j: int| 0 <= j < i ==> (#[trigger] cs[j]).id != c.id,
        i < cs.len() ==> cs[i].id == c.id,
    ensures
        upsert_collection(cs, c) == if i < cs.len() {
            cs.update(i, c)
        } else {
            cs.push(c)
        },
    decreases cs.len(),
{
    if cs.len() == 0 {
        assert(upsert_collection(cs, c) =~= cs.push(c));
    } else if cs[0].id == c.id {
        assert(upsert_collection(cs, c) =~= cs.update(0, c));
    } else {
        assert forall|j: int| 0 <= j < i - 1 implies (#[trigger] cs.drop_first()[j]).id != c.id by {
            assert(cs[j + 1].id != c.id);
        }
        if i - 1 < cs.drop_first().len() {
            assert(cs.drop_first()[i - 1] == cs[i]);
        }
        lemma_upsert_collection_at(cs.drop_first(), c, i - 1);
        if i < cs.len() {
            assert(upsert_collection(cs, c) =~= cs.update(i, c));
        } else {
            assert(upsert_collection(cs, c) =~= cs.push(c));
        }
    }
}

proof fn lemma_upsert_collections_push(cs: Seq<CollectionV>, news: Seq<CollectionV>, c: CollectionV)
    ensures
        upsert_collections(cs, news.push(c)) == upsert_collection(
            upsert_collections(cs, news),
            c,
        ),
    decreases news.len(),
{
    let p = news.push(c);
    if news.len() == 0 {
        assert(p[0] == c);
        assert(p.drop_first() =~= Seq::<CollectionV>::empty());
        assert(upsert_collections(cs, p) == upsert_collections(upsert_collection(cs, c), p.drop_first()));
    } else {
        assert(p[0] == news[0]);
        assert(p.drop_first() =~= news.drop_first().push(c));
        lemma_upsert_collections_push(upsert_collection(cs, news[0]), news.drop_first(), c);
    }
}

proof fn lemma_upsert_route_at(rs: Seq<RouteV>, r: RouteV, i: int)
    requires
        0 <= i <= rs.len(),
        forall|j: int| 0 <= j < i ==> (#[trigger] rs[j]).id != r.id,
        i < rs.len() ==> rs[i].id == r.id,
    ensures
        upsert_route(rs, r) == if i < rs.len() {
            rs.update(i, r)
        } else {
            rs.push(r)
        },
    decreases rs.len(),
{
    if rs.len() == 0 {
        assert(upsert_route(rs, r) =~= rs.push(r));
    } else if rs[0].id == r.id {
        assert(upsert_route(rs, r) =~= rs.update(0, r));
    } else {
        assert forall|j: int| 0 <= j < i - 1 implies (#[trigger] rs.drop_first()[j]).id != r.id by {
            assert(rs[j + 1].id != r.id);
        }
        if i - 1 < rs.drop_first().len() {
            assert(rs.drop_first()[i - 1] == rs[i]);
        }
        lemma_upsert_route_at(rs.drop_first(), r, i - 1);
        if i < rs.len() {
            assert(upsert_route(rs, r) =~= rs.update(i, r));
        } else {
            assert(upsert_route(rs, r) =~= rs.push(r));
        }
    }
}

proof fn lemma_upsert_routes_push(rs: Seq<RouteV>, news: Seq<RouteV>, r: RouteV)
    ensures
        upsert_routes(rs, news.push(r)) == upsert_route(upsert_routes(rs, news), r),
    decreases news.len(),
{
    let p = news.push(r);
    if news.len() == 0 {
        assert(p[0] == r);
        assert(p.drop_first() =~= Seq::<RouteV>::empty());
        assert(upsert_routes(rs, p) == upsert_routes(upsert_route(rs, r), p.drop_first()));
    } else {
        assert(p[0] == news[0]);
        assert(p.drop_first() =~= news.drop_first().push(r));
        lemma_upsert_routes_push(upsert_route(rs, news[0]), news.drop_first(), r);
    }
}

/// The set of identifiers held by a list of strings.
pub open spec fn seen_set(ss: Seq<String>) -> Set<Seq<char>> {
    Set::new(|x: Seq<char>| exists|i: int| 0 <= i < ss.len() && (#[trigger] ss[i])@ == x)
}

proof fn lemma_seen_set_push(ss: Seq<String>, id: String)
    ensures
        seen_set(ss.push(id)) == seen_set(ss).insert(id@),
{
    let p = ss.push(id);
    assert forall|x: Seq<char>| seen_set(p).contains(x) implies seen_set(ss).insert(id@).contains(
        x,
    ) by {
        let i = choose|i: int| 0 <= i < p.len() && (#[trigger] p[i])@ == x;
        if i < ss.len() {
            assert(ss[i]@ == x);
        } else {
            assert(p[i] == id);
        }
    }
    assert forall|x: Seq<char>| seen_set(ss).insert(id@).contains(x) implies seen_set(p).contains(
        x,
    ) by {
        if x == id@ {
            assert(p[ss.len() as int]@ == x);
        } else {
            let i = choose|i: int| 0 <= i < ss.len() && (#[trigger] ss[i])@ == x;
            assert(p[i]@ == x);
        }
    }
    assert(seen_set(p) =~= seen_set(ss).insert(id@));
}

/// The inheritance chain of a collection, parents first: the chain of the
/// parent (when there is one) followed by the collection itself. A
/// collection that is re-entered while still on the walk's path closes a
/// cycle; a missing collection fails the walk. The walk gives up with the
/// same cycle error when its fuel runs out, which a table of distinct
/// identifiers never makes it do.
pub open spec fn chain_rec(
    cs: Seq<CollectionV>,
    id: Seq<char>,
    seen: Set<Seq<char>>,
    fuel: nat,
) -> Result<Seq<CollectionV>, ResolveErrorV>
    decreases fuel,
{
    if seen.contains(id) {
        Err(ResolveErrorV::CircularDependency { collection_id: id })
    } else {
        match lookup_collection(cs, id) {
            None => Err(ResolveErrorV::CollectionNotFound { collection_id: id }),
            Some(c) => match c.from {
                None => Ok(seq![c]),
                Some(pid) => if fuel == 0 {
                    Err(ResolveErrorV::CircularDependency { collection_id: id })
                } else {
                    match chain_rec(cs, pid, seen.insert(id), (fuel - 1) as nat) {
                        Ok(chain) => Ok(chain.push(c)),
                        Err(e) => Err(e),
                    }
                },
            },
        }
    }
}

/// The inheritance chain of a collection, parents first.
pub open spec fn chain_of(cs: Seq<CollectionV>, id: Seq<char>) -> Result<
    Seq<CollectionV>,
    ResolveErrorV,
> {
    chain_rec(cs, id, Set::empty(), cs.len())
}

/// All route references of a chain, in ancestor-to-descendant order.
pub open spec fn all_refs(chain: Seq<CollectionV>) -> Seq<Seq<char>>
    decreases chain.len(),
{
    if chain.len() == 0 {
        Seq::empty()
    } else {
        chain[0].routes + all_refs(chain.drop_first())
    }
}

proof fn lemma_all_refs_push(chain: Seq<CollectionV>, c: CollectionV)
    ensures
        all_refs(chain.push(c)) == all_refs(chain) + c.routes,
    decreases chain.len(),
{
    let p = chain.push(c);
    if chain.len() == 0 {
        assert(p[0] == c);
        assert(p.drop_first() =~= Seq::<CollectionV>::empty());
        assert(all_refs(p) == c.routes + all_refs(p.drop_first()));
        assert(all_refs(p) =~= all_refs(chain) + c.routes);
    } else {
        assert(p[0] == chain[0]);
        assert(p.drop_first() =~= chain.drop_first().push(c));
        lemma_all_refs_push(chain.drop_first(), c);
        assert(all_refs(p) == chain[0].routes + all_refs(chain.drop_first().push(c)));
        assert(all_refs(p) =~= all_refs(chain) + c.routes);
    }
}

/// Resolution of one route reference: the reference is parsed, then the
/// route, its preset and its variant are looked up in turn, the first
/// failure giving the most specific applicable error.
pub open spec fn resolve_ref(rs: Seq<RouteV>, ref_str: Seq<char>) -> Result<
    ActiveRouteV,
    ResolveErrorV,
> {
    match parse_ref_spec(ref_str) {
        None => Err(ResolveErrorV::InvalidRouteReference { reference: ref_str }),
        Some((rid, pid, vid)) => match lookup_route(rs, rid) {
            None => Err(ResolveErrorV::RouteNotFound { route_id: rid }),
            Some(route) => match find_preset(route.presets, pid) {
                None => Err(ResolveErrorV::PresetNotFound { route_id: rid, preset_id: pid }),
                Some(preset) => match find_variant(preset.variants, vid) {
                    None => Err(
                        ResolveErrorV::VariantNotFound {
                            route_id: rid,
                            preset_id: pid,
                            variant_id: vid,
                        },
                    ),
                    Some(variant) => Ok(ActiveRouteV { route, preset, variant }),
                },
            },
        },
    }
}

/// Resolution of a list of route references, in order, aborting on the
/// first failure.
pub open spec fn resolve_refs(rs: Seq<RouteV>, refs: Seq<Seq<char>>) -> Result<
    Seq<ActiveRouteV>,
    ResolveErrorV,
>
    decreases refs.len(),
{
    if refs.len() == 0 {
        Ok(Seq::empty())
    } else {
        match resolve_ref(rs, refs[0]) {
            Err(e) => Err(e),
            Ok(ar) => match resolve_refs(rs, refs.drop_first()) {
                Err(e) => Err(e),
                Ok(rest) => Ok(seq![ar] + rest),
            },
        }
    }
}

/// Index of the last entry with the given route identifier, or `-1`.
pub open spec fn last_index_with(s: Seq<ActiveRouteV>, rid: Seq<char>) -> int
    decreases s.len(),
{
    if s.len() == 0 {
        -1
    } else if s[s.len() - 1].route.id == rid {
        s.len() - 1
    } else {
        last_index_with(s.drop_last(), rid)
    }
}

/// `last_index_with` is pinned down by the position of the last match.
pub proof fn lemma_last_index_at(s: Seq<ActiveRouteV>, rid: Seq<char>, i: int)
    requires
        -1 <= i < s.len(),
        forall|j: int| i < j < s.len() ==> (#[trigger] s[j]).route.id != rid,
        0 <= i ==> s[i].route.id == rid,
    ensures
        last_index_with(s, rid) == i,
    decreases s.len(),
{
    if s.len() > 0 && s[s.len() - 1].route.id != rid {
        assert forall|j: int| i < j < s.drop_last().len() implies (#[trigger] s.drop_last()[j]).route.id
            != rid by {
            assert(s[j] == s.drop_last()[j]);
        }
        if 0 <= i {
            assert(s.drop_last()[i] == s[i]);
        }
        lemma_last_index_at(s.drop_last(), rid, i);
    }
}

/// The override-aware flattening of a resolved reference list, from
/// position `i` on: each route identifier appears once, at the position of
/// its first occurrence, carrying the value of its last occurrence.
pub open spec fn flatten_from(s: Seq<ActiveRouteV>, i: int, seen: Set<Seq<char>>) -> Seq<
    ActiveRouteV,
>
    decreases s.len() - i,
{
    if i < 0 || i >= s.len() {
        Seq::empty()
    } else if seen.contains(s[i].route.id) {
        flatten_from(s, i + 1, seen)
    } else {
        let li = last_index_with(s, s[i].route.id);
        let chosen = if 0 <= li < s.len() {
            s[li]
        } else {
            s[i]
        };
        seq![chosen] + flatten_from(s, i + 1, seen.insert(s[i].route.id))
    }
}

/// The override-aware flattening of a resolved reference list.
pub open spec fn flatten_actives_spec(s: Seq<ActiveRouteV>) -> Seq<ActiveRouteV> {
    flatten_from(s, 0, Set::empty())
}

/// The full resolution of a collection: its inheritance chain is walked,
/// every route reference is resolved in ancestor-to-descendant order, and
/// the resolved list is flattened with override semantics.
pub open spec fn resolve_spec(m: MocksManagerV, id: Seq<char>) -> Result<
    Seq<ActiveRouteV>,
    ResolveErrorV,
> {
    match chain_of(m.collections, id) {
        Err(e) => Err(e),
        Ok(chain) => match resolve_refs(m.routes, all_refs(chain)) {
            Err(e) => Err(e),
            Ok(ars) => Ok(flatten_actives_spec(ars)),
        },
    }
}

impl MocksManager {
    /// Position of the collection with the given identifier.
    fn find_collection(&self, id: &String) -> (r: Option<usize>)
        ensures
            match r {
                Some(i) => i < self@.collections.len() && self@.collections[i as int].id == id@
                    && lookup_collection(self@.collections, id@) == Some(
                    self@.collections[i as int],
                ),
                None => lookup_collection(self@.collections, id@) is None,
            },
    {
        let mut i: usize = 0;
        while i < self.collections.len()
            invariant
                i <= self@.collections.len(),
                self@.collections.len() == self.collections@.len(),
                forall|j: int| 0 <= j < i ==> (#[trigger] self@.collections[j]).id != id@,
            decreases self.collections@.len() - i,
        {
            if self.collections[i].id == *id {
                proof {
                    lemma_lookup_collection_at(self@.collections, id@, i as int);
                }
                return Some(i);
            }
            i = i + 1;
        }
        proof {
            lemma_lookup_collection_at(self@.collections, id@, i as int);
        }
        None
    }

    /// Position of the route with the given identifier.
    fn find_route_pos(&self, id: &String) -> (r: Option<usize>)
        ensures
            match r {
                Some(i) => i < self@.routes.len() && self@.routes[i as int].id == id@
                    && lookup_route(self@.routes, id@) == Some(self@.routes[i as int]),
                None => lookup_route(self@.routes, id@) is None,
            },
    {
        let mut i: usize = 0;
        while i < self.routes.len()
            invariant
                i <= self@.routes.len(),
                self@.routes.len() == self.routes@.len(),
                forall|j: int| 0 <= j < i ==> (#[trigger] self@.routes[j]).id != id@,
            decreases self.routes@.len() - i,
        {
            if self.routes[i].id == *id {
                proof {
                    lemma_lookup_route_at(self@.routes, id@, i as int);
                }
                return Some(i);
            }
            i = i + 1;
        }
        proof {
            lemma_lookup_route_at(self@.routes, id@, i as int);
        }
        None
    }

    /// Walk the inheritance chain from `id` up, parents first in the
    /// result.
    fn chain_walk(&self, id: &String, seen: &mut Vec<String>, fuel: usize) -> (r: Result<
        Vec<Collection>,
        ResolveError,
    >)
        ensures
            match r {
                Ok(chain) => chain_rec(
                    self@.collections,
                    id@,
                    seen_set(old(seen)@),
                    fuel as nat,
                ) == Ok::<Seq<CollectionV>, ResolveErrorV>(collections_view(chain@)),
                Err(e) => chain_rec(self@.collections, id@, seen_set(old(seen)@), fuel as nat)
                    == Err::<Seq<CollectionV>, ResolveErrorV>(e@),
            },
        decreases fuel,
    {
        let ghost sset = seen_set(seen@);
        let mut k: usize = 0;
        while k < seen.len()
            invariant
                k <= seen@.len(),
                seen@ == old(seen)@,
                forall|j: int| 0 <= j < k ==> (#[trigger] seen@[j])@ != id@,
            decreases seen@.len() - k,
        {
            if seen[k] == *id {
                proof {
                    assert(seen_set(old(seen)@).contains(id@));
                }
                return Err(ResolveError::CircularDependency { collection_id: id.clone() });
            }
            k = k + 1;
        }
        proof {
            assert(!seen_set(old(seen)@).contains(id@));
        }
        let ci = match self.find_collection(id) {
            None => {
                return Err(ResolveError::CollectionNotFound { collection_id: id.clone() });
            },
            Some(ci) => ci,
        };
        let c = self.collections[ci].clone();
        proof {
            assert(c@ == self@.collections[ci as int]);
        }
        match &c.from {
            None => {
                let mut chain: Vec<Collection> = Vec::new();
                chain.push(c);
                proof {
                    assert(c@.from is None);
                    assert(collections_view(chain@) =~= seq![c@]);
                }
                Ok(chain)
            },
            Some(pid) => {
                proof {
                    assert(c@.from == Some(pid@));
                }
                if fuel == 0 {
                    return Err(ResolveError::CircularDependency { collection_id: id.clone() });
                }
                let idc = id.clone();
                seen.push(idc);
                proof {
                    lemma_seen_set_push(old(seen)@, idc);
                    assert(seen_set(seen@) == seen_set(old(seen)@).insert(id@));
                }
                match self.chain_walk(pid, seen, fuel - 1) {
                    Ok(mut chain) => {
                        let ghost chv = collections_view(chain@);
                        chain.push(c);
                        proof {
                            assert(collections_view(chain@) =~= chv.push(c@));
                        }
                        Ok(chain)
                    },
                    Err(e) => Err(e),
                }
            },
        }
    }

    /// Resolve one `route:preset:variant` reference against the route
    /// table.
    pub fn resolve_route_reference(&self, route_ref: &String) -> (r: Result<
        ActiveRoute,
        ResolveError,
    >)
        ensures
            match r {
                Ok(ar) => resolve_ref(self@.routes, route_ref@) == Ok::<ActiveRouteV, ResolveErrorV>(ar@),
                Err(e) => resolve_ref(self@.routes, route_ref@) == Err::<ActiveRouteV, ResolveErrorV>(e@),
            },
    {
        let rr = match RouteReference::parse(route_ref.as_str()) {
            None => {
                return Err(ResolveError::InvalidRouteReference { reference: route_ref.clone() });
            },
            Some(rr) => rr,
        };
        let ri = match self.find_route_pos(&rr.route_id) {
            None => {
                return Err(ResolveError::RouteNotFound { route_id: rr.route_id });
            },
            Some(ri) => ri,
        };
        let route = self.routes[ri].clone();
        proof {
            assert(route@ == self@.routes[ri as int]);
        }
        let mut pi: usize = 0;
        let ghost pv = route@.presets;
        loop
            invariant
                pi <= pv.len(),
                route@.presets == pv,
                pv.len() == route.presets@.len(),
                forall|j: int| 0 <= j < pi ==> (#[trigger] pv[j]).id != rr.preset_id@,
            decreases pv.len() - pi,
        {
            if pi >= route.presets.len() {
                proof {
                    lemma_find_preset_at(pv, rr.preset_id@, pi as int);
                }
                return Err(
                    ResolveError::PresetNotFound {
                        route_id: rr.route_id,
                        preset_id: rr.preset_id,
                    },
                );
            }
            if route.presets[pi].id == rr.preset_id {
                break ;
            }
            proof {
                assert(pv[pi as int] == route.presets@[pi as int]@);
            }
            pi = pi + 1;
        }
        proof {
            assert(pv[pi as int] == route.presets@[pi as int]@);
            lemma_find_preset_at(pv, rr.preset_id@, pi as int);
        }
        let preset = route.presets[pi].clone();
        let mut vi: usize = 0;
        let ghost vv = preset@.variants;
        loop
            invariant
                vi <= vv.len(),
                preset@.variants == vv,
                vv.len() == preset.variants@.len(),
                forall|j: int| 0 <= j < vi ==> (#[trigger] vv[j]).id != rr.variant_id@,
            decreases vv.len() - vi,
        {
            if vi >= preset.variants.len() {
                proof {
                    lemma_find_variant_at(vv, rr.variant_id@, vi as int);
                }
                return Err(
                    ResolveError::VariantNotFound {
                        route_id: rr.route_id,
                        preset_id: rr.preset_id,
                        variant_id: rr.variant_id,
                    },
                );
            }
            if preset.variants[vi].id == rr.variant_id {
                break ;
            }
            proof {
                assert(vv[vi as int] == preset.variants@[vi as int]@);
            }
            vi = vi + 1;
        }
        proof {
            assert(vv[vi as int] == preset.variants@[vi as int]@);
            lemma_find_variant_at(vv, rr.variant_id@, vi as int);
        }
        let variant = preset.variants[vi].clone();
        Ok(ActiveRoute { route, preset, variant })
    }

    /// Resolve a collection: walk its inheritance chain, resolve every
    /// route reference in ancestor-to-descendant order, and flatten
    /// overrides so that each route identifier appears once, at the
    /// position of its first appearance, carrying its most specific
    /// definition.
    pub fn resolve_collection(&self, collection_id: &String) -> (r: Result<
        Vec<ActiveRoute>,
        ResolveError,
    >)
        ensures
            match r {
                Ok(ars) => resolve_spec(self@, collection_id@) == Ok::<Seq<ActiveRouteV>, ResolveErrorV>(actives_view(ars@)),
                Err(e) => resolve_spec(self@, collection_id@) == Err::<Seq<ActiveRouteV>, ResolveErrorV>(e@),
            },
    {
        let mut seen: Vec<String> = Vec::new();
        proof {
            assert(seen_set(seen@) =~= Set::<Seq<char>>::empty());
        }
        let fuel = self.collections.len();
        proof {
            assert(self@.collections.len() == self.collections@.len());
        }
        let chain = match self.chain_walk(collection_id, &mut seen, fuel) {
            Ok(chain) => chain,
            Err(e) => {
                return Err(e);
            },
        };
        let ghost chv = collections_view(chain@);
        let mut refs: Vec<String> = Vec::new();
        let mut i: usize = 0;
        proof {
            assert(refs@.map_values(|s: String| s@) =~= all_refs(chv.take(0)));
        }
        while i < chain.len()
            invariant
                i <= chain@.len(),
                chv == collections_view(chain@),
                refs@.map_values(|s: String| s@) == all_refs(chv.take(i as int)),
            decreases chain@.len() - i,
        {
            let mut j: usize = 0;
            while j < chain[i].routes.len()
                invariant
                    i < chain@.len(),
                    j <= chain@[i as int].routes@.len(),
                    chv == collections_view(chain@),
                    refs@.map_values(|s: String| s@) == all_refs(chv.take(i as int))
                        + chv[i as int].routes.take(j as int),
                decreases chain@[i as int].routes@.len() - j,
            {
                let ghost before = refs@.map_values(|s: String| s@);
                refs.push(chain[i].routes[j].clone());
                j = j + 1;
                proof {
                    assert(chv[i as int].routes[j as int - 1] == chain@[i as int].routes@[j as int
                        - 1]@);
                    assert(refs@.map_values(|s: String| s@) =~= before.push(
                        chv[i as int].routes[j as int - 1],
                    ));
                    assert(before.push(chv[i as int].routes[j - 1]) =~= all_refs(
                        chv.take(i as int),
                    ) + chv[i as int].routes.take(j as int));
                }
            }
            proof {
                assert(chv[i as int].routes.take(chv[i as int].routes.len() as int) =~= chv[
                    i as int
                ].routes);
                assert(chv.take(i as int).push(chv[i as int]) =~= chv.take(i as int + 1));
                lemma_all_refs_push(chv.take(i as int), chv[i as int]);
            }
            i = i + 1;
        }
        proof {
            assert(chv.take(chv.len() as int) =~= chv);
        }
        let ghost refsv = refs@.map_values(|s: String| s@);
        let mut resolved: Vec<ActiveRoute> = Vec::new();
        let mut k: usize = 0;
        proof {
            assert(refsv.skip(0) =~= refsv);
            assert(actives_view(resolved@) =~= Seq::<ActiveRouteV>::empty());
        }
        while k < refs.len()
            invariant
                k <= refs@.len(),
                refsv == refs@.map_values(|s: String| s@),
                resolve_refs(self@.routes, refsv) == match resolve_refs(
                    self@.routes,
                    refsv.skip(k as int),
                ) {
                    Ok(rest) => Ok::<Seq<ActiveRouteV>, ResolveErrorV>(
                        actives_view(resolved@) + rest,
                    ),
                    Err(e) => Err::<Seq<ActiveRouteV>, ResolveErrorV>(e),
                },
            decreases refs@.len() - k,
        {
            proof {
                assert(refsv.skip(k as int)[0] == refsv[k as int]);
                assert(refsv.skip(k as int).drop_first() =~= refsv.skip(k as int + 1));
                assert(refsv[k as int] == refs@[k as int]@);
            }
            let ar = match self.resolve_route_reference(&refs[k]) {
                Ok(ar) => ar,
                Err(e) => {
                    return Err(e);
                },
            };
            let ghost rv = actives_view(resolved@);
            resolved.push(ar);
            proof {
                assert(actives_view(resolved@) =~= rv.push(ar@));
                let rec = resolve_refs(self@.routes, refsv.skip(k as int + 1));
                match rec {
                    Ok(rest) => {
                        assert(rv + (seq![ar@] + rest) =~= rv.push(ar@) + rest);
                    },
                    Err(_) => {},
                }
            }
            k = k + 1;
        }
        proof {
            assert(refsv.skip(refsv.len() as int) =~= Seq::<Seq<char>>::empty());
            assert(actives_view(resolved@) + Seq::<ActiveRouteV>::empty() =~= actives_view(
                resolved@,
            ));
        }
        let flat = flatten_actives(&resolved);
        Ok(flat)
    }
}

/// Position of the last active route with the given route identifier.
fn last_pos(ars: &Vec<ActiveRoute>, rid: &String) -> (r: Option<usize>)
    ensures
        match r {
            Some(i) => i < ars@.len() && last_index_with(actives_view(ars@), rid@) == i,
            None => last_index_with(actives_view(ars@), rid@) == -1,
        },
{
    let ghost av = actives_view(ars@);
    let mut i: usize = ars.len();
    while i > 0
        invariant
            i <= ars@.len(),
            forall|j: int| i <= j < av.len() ==> (#[trigger] av[j]).route.id != rid@,
        decreases i,
    {
        i = i - 1;
        if ars[i].route.id == *rid {
            proof {
                assert(av[i as int] == ars@[i as int]@);
                lemma_last_index_at(av, rid@, i as int);
            }
            return Some(i);
        }
        proof {
            assert(av[i as int] == ars@[i as int]@);
        }
    }
    proof {
        lemma_last_index_at(av, rid@, -1);
    }
    None
}

/// When there is no entry with the identifier, no position holds it.
proof fn lemma_last_index_none(s: Seq<ActiveRouteV>, rid: Seq<char>)
    requires
        last_index_with(s, rid) == -1,
    ensures
        forall|j: int| 0 <= j < s.len() ==> (#[trigger] s[j]).route.id != rid,
    decreases s.len(),
{
    if s.len() > 0 {
        assert(s[s.len() - 1].route.id != rid);
        lemma_last_index_none(s.drop_last(), rid);
        assert forall|j: int| 0 <= j < s.len() implies (#[trigger] s[j]).route.id != rid by {
            if j < s.len() - 1 {
                assert(s.drop_last()[j] == s[j]);
            }
        }
    }
}

/// Flatten a resolved reference list with override semantics.
fn flatten_actives(ars: &Vec<ActiveRoute>) -> (r: Vec<ActiveRoute>)
    ensures
        actives_view(r@) == flatten_actives_spec(actives_view(ars@)),
{
    let ghost av = actives_view(ars@);
    let mut out: Vec<ActiveRoute> = Vec::new();
    let mut placed: Vec<String> = Vec::new();
    let mut i: usize = 0;
    proof {
        assert(seen_set(placed@) =~= Set::<Seq<char>>::empty());
        assert(actives_view(out@) + flatten_from(av, 0, seen_set(placed@)) =~= flatten_from(
            av,
            0,
            Set::empty(),
        ));
    }
    while i < ars.len()
        invariant
            i <= ars@.len(),
            av == actives_view(ars@),
            flatten_actives_spec(av) == actives_view(out@) + flatten_from(
                av,
                i as int,
                seen_set(placed@),
            ),
        decreases ars@.len() - i,
    {
        proof {
            assert(av[i as int] == ars@[i as int]@);
        }
        let rid = &ars[i].route.id;
        let mut already = false;
        let mut k: usize = 0;
        while k < placed.len()
            invariant
                k <= placed@.len(),
                already ==> seen_set(placed@).contains(rid@),
                !already ==> forall|j: int| 0 <= j < k ==> (#[trigger] placed@[j])@ != rid@,
            decreases placed@.len() - k,
        {
            if placed[k] == *rid {
                already = true;
                proof {
                    assert(placed@[k as int]@ == rid@);
                }
                break ;
            }
            k = k + 1;
        }
        if already {
            proof {
                assert(flatten_from(av, i as int, seen_set(placed@)) == flatten_from(
                    av,
                    i as int + 1,
                    seen_set(placed@),
                ));
            }
        } else {
            proof {
                assert(!seen_set(placed@).contains(rid@));
            }
            let li = match last_pos(ars, rid) {
                Some(li) => li,
                None => {
                    proof {
                        lemma_last_index_none(av, rid@);
                        assert(av[i as int].route.id == rid@);
                        assert(false);
                    }
                    0
                },
            };
            let chosen = ars[li].clone();
            let ghost ov = actives_view(out@);
            let ghost pv = placed@;
            let ghost sset = seen_set(placed@);
            out.push(chosen);
            let ridc = rid.clone();
            placed.push(ridc);
            proof {
                assert(av[li as int] == ars@[li as int]@);
                lemma_seen_set_push(pv, ridc);
                assert(seen_set(placed@) == sset.insert(rid@));
                assert(actives_view(out@) =~= ov.push(av[li as int]));
                assert(flatten_from(av, i as int, sset) == seq![av[li as int]] + flatten_from(
                    av,
                    i as int + 1,
                    sset.insert(rid@),
                ));
                assert(ov + (seq![av[li as int]] + flatten_from(
                    av,
                    i as int + 1,
                    sset.insert(rid@),
                )) =~= ov.push(av[li as int]) + flatten_from(av, i as int + 1, sset.insert(rid@)));
            }
        }
        i = i + 1;
    }
    proof {
        assert(flatten_from(av, av.len() as int, seen_set(placed@)) =~= Seq::<
            ActiveRouteV,
        >::empty());
        assert(actives_view(out@) + Seq::<ActiveRouteV>::empty() =~= actives_view(out@));
    }
    out
}

/// Whether some entry carries the given route identifier.
pub open spec fn has_route_id(s: Seq<ActiveRouteV>, rid: Seq<char>) -> bool {
    exists|i: int| 0 <= i < s.len() && (#[trigger] s[i]).route.id == rid
}

/// Index of the first entry with the given route identifier, or the length.
pub open spec fn first_index_with(s: Seq<ActiveRouteV>, rid: Seq<char>) -> int
    decreases s.len(),
{
    if s.len() == 0 {
        0
    } else if s[0].route.id == rid {
        0
    } else {
        1 + first_index_with(s.drop_first(), rid)
    }
}

/// `first_index_with` is pinned down by the position of the first match.
pub proof fn lemma_first_index_with_at(s: Seq<ActiveRouteV>, rid: Seq<char>, i: int)
    requires
        0 <= i <= s.len(),
        forall|j: int| 0 <= j < i ==> (#[trigger] s[j]).route.id != rid,
        i < s.len() ==> s[i].route.id == rid,
    ensures
        first_index_with(s, rid) == i,
    decreases s.len(),
{
    if s.len() > 0 && s[0].route.id != rid {
        assert forall|j: int| 0 <= j < i - 1 implies (#[trigger] s.drop_first()[j]).route.id
            != rid by {
            assert(s[j + 1].route.id != rid);
        }
        if i - 1 < s.drop_first().len() {
            assert(s.drop_first()[i - 1] == s[i]);
        }
        lemma_first_index_with_at(s.drop_first(), rid, i - 1);
    }
}

/// A witness pushes the last index at least as far.
proof fn lemma_last_index_witness(s: Seq<ActiveRouteV>, rid: Seq<char>, w: int)
    requires
        0 <= w < s.len(),
        s[w].route.id == rid,
    ensures
        w <= last_index_with(s, rid) < s.len(),
        s[last_index_with(s, rid)].route.id == rid,
    decreases s.len(),
{
    if s[s.len() - 1].route.id != rid {
        assert(w < s.len() - 1);
        assert(s.drop_last()[w] == s[w]);
        lemma_last_index_witness(s.drop_last(), rid, w);
        assert(s.drop_last()[last_index_with(s, rid)] == s[last_index_with(s, rid)]);
    }
}

/// The properties of the flattening, generalized over the walk position and
/// the already-placed identifiers: every result entry carries an identifier
/// not yet placed that occurs in the remainder, its value is the last
/// occurrence's value, identifiers are pairwise distinct, every not-placed
/// identifier of the remainder appears, and entries are ordered by first
/// occurrence.
proof fn lemma_flatten_from_props(s: Seq<ActiveRouteV>, i: int, seen: Set<Seq<char>>)
    requires
        0 <= i <= s.len(),
        forall|t: int| 0 <= t < i ==> seen.contains((#[trigger] s[t]).route.id),
    ensures
        ({
            let r = flatten_from(s, i, seen);
            &&& forall|k: int|
                0 <= k < r.len() ==> !seen.contains((#[trigger] r[k]).route.id)
            &&& forall|k: int|
                0 <= k < r.len() ==> 0 <= last_index_with(s, (#[trigger] r[k]).route.id)
                    < s.len() && r[k] == s[last_index_with(s, r[k].route.id)]
            &&& forall|k1: int, k2: int|
                0 <= k1 < k2 < r.len() ==> (#[trigger] r[k1]).route.id != (
                #[trigger] r[k2]).route.id
            &&& forall|rid: Seq<char>|
                !seen.contains(rid) && (exists|t: int|
                    i <= t < s.len() && (#[trigger] s[t]).route.id == rid) ==> exists|k: int|
                    0 <= k < r.len() && (#[trigger] r[k]).route.id == rid
            &&& forall|k1: int, k2: int|
                0 <= k1 < k2 < r.len() ==> first_index_with(s, (#[trigger] r[k1]).route.id)
                    < first_index_with(s, (#[trigger] r[k2]).route.id)
        }),
    decreases s.len() - i,
{
    let r = flatten_from(s, i, seen);
    if i >= s.len() {
    } else if seen.contains(s[i].route.id) {
        lemma_flatten_from_props(s, i + 1, seen);
    } else {
        let id0 = s[i].route.id;
        let seen2 = seen.insert(id0);
        lemma_last_index_witness(s, id0, i);
        let li = last_index_with(s, id0);
        let rest = flatten_from(s, i + 1, seen2);
        lemma_flatten_from_props(s, i + 1, seen2);
        assert(r == seq![s[li]] + rest);
        assert(r[0] == s[li]);
        assert(r[0].route.id == id0);
        lemma_first_index_with_at(s, id0, i);
        assert forall|k: int| 1 <= k < r.len() implies #[trigger] r[k] == rest[k - 1] by {}
        assert forall|k: int| 0 <= k < r.len() implies !seen.contains(
            (#[trigger] r[k]).route.id,
        ) by {
            if k > 0 {
                assert(!seen2.contains(rest[k - 1].route.id));
            }
        }
        assert forall|k: int| 0 <= k < r.len() implies 0 <= last_index_with(
            s,
            (#[trigger] r[k]).route.id,
        ) < s.len() && r[k] == s[last_index_with(s, r[k].route.id)] by {
            if k > 0 {
                assert(rest[k - 1] == s[last_index_with(s, rest[k - 1].route.id)]);
            }
        }
        assert forall|k1: int, k2: int|
            0 <= k1 < k2 < r.len() implies (#[trigger] r[k1]).route.id != (
            #[trigger] r[k2]).route.id by {
            if k1 == 0 {
                assert(!seen2.contains(rest[k2 - 1].route.id));
            } else {
                assert(rest[k1 - 1].route.id != rest[k2 - 1].route.id);
            }
        }
        assert forall|rid: Seq<char>|
            !seen.contains(rid) && (exists|t: int|
                i <= t < s.len() && (#[trigger] s[t]).route.id == rid) implies exists|k: int|
            0 <= k < r.len() && (#[trigger] r[k]).route.id == rid by {
            if rid == id0 {
                assert(r[0].route.id == rid);
            } else {
                let t = choose|t: int| i <= t < s.len() && (#[trigger] s[t]).route.id == rid;
                assert(t != i);
                assert(i + 1 <= t < s.len() && s[t].route.id == rid);
                assert(!seen2.contains(rid));
                let k = choose|k: int|
                    0 <= k < rest.len() && (#[trigger] rest[k]).route.id == rid;
                assert(r[k + 1].route.id == rid);
            }
        }
        assert forall|k1: int, k2: int|
            0 <= k1 < k2 < r.len() implies first_index_with(s, (#[trigger] r[k1]).route.id)
            < first_index_with(s, (#[trigger] r[k2]).route.id) by {
            let rid2 = r[k2].route.id;
            assert(rest[k2 - 1].route.id == rid2);
            assert(!seen2.contains(rid2));
            assert(rest[k2 - 1] == s[last_index_with(s, rest[k2 - 1].route.id)]);
            assert(0 <= last_index_with(s, rid2) < s.len());
            assert(exists|t: int|
                i + 1 <= t < s.len() && (#[trigger] s[t]).route.id == rid2) by {
                let w = last_index_with(s, rid2);
                assert(s[w].route.id == rid2);
                assert(w != i) by {
                    assert(rid2 != id0);
                }
                assert(w > i) by {
                    if w < i {
                        assert(seen.contains(s[w].route.id));
                    }
                }
            }
            lemma_first_index_lower(s, rid2, i + 1, seen2, seen);
            if k1 == 0 {
                assert(first_index_with(s, r[k1].route.id) == i);
            } else {
                assert(rest[k1 - 1].route.id == r[k1].route.id);
            }
        }
    }
}

/// When every identifier before `i` is already placed and `rid` is not, its
/// first occurrence cannot lie before `i`.
proof fn lemma_first_index_lower(
    s: Seq<ActiveRouteV>,
    rid: Seq<char>,
    i: int,
    seen2: Set<Seq<char>>,
    seen: Set<Seq<char>>,
)
    requires
        0 <= i <= s.len(),
        forall|t: int| 0 <= t < i ==> seen2.contains((#[trigger] s[t]).route.id),
        !seen2.contains(rid),
        exists|t: int| i <= t < s.len() && (#[trigger] s[t]).route.id == rid,
    ensures
        i <= first_index_with(s, rid) < s.len(),
{
    assert forall|j: int| 0 <= j < i implies (#[trigger] s[j]).route.id != rid by {
        assert(seen2.contains(s[j].route.id));
    }
    let w = choose|t: int| i <= t < s.len() && (#[trigger] s[t]).route.id == rid;
    let fi = first_index_of_witnessed(s, rid, i, w);
}

/// With no match before `i` and a witness at or after `i`, the first index
/// lies between them.
proof fn first_index_of_witnessed(s: Seq<ActiveRouteV>, rid: Seq<char>, i: int, w: int) -> (fi:
    int)
    requires
        0 <= i <= w < s.len(),
        s[w].route.id == rid,
        forall|j: int| 0 <= j < i ==> (#[trigger] s[j]).route.id != rid,
    ensures
        fi == first_index_with(s, rid),
        i <= fi <= w,
        s[fi].route.id == rid,
    decreases w - i,
{
    if s[i].route.id == rid {
        lemma_first_index_with_at(s, rid, i);
        i
    } else {
        first_index_of_witnessed(s, rid, i + 1, w)
    }
}

/// Override precedence, generally: in the flattening of a resolved
/// reference list, each route identifier of the list appears exactly once;
/// its entry carries the value of its last occurrence, the most specific
/// definition; and entries stand in the order of their identifiers' first
/// occurrences.
pub proof fn lemma_flatten_override(s: Seq<ActiveRouteV>)
    ensures
        ({
            let r = flatten_actives_spec(s);
            &&& forall|k: int|
                0 <= k < r.len() ==> 0 <= last_index_with(s, (#[trigger] r[k]).route.id)
                    < s.len() && r[k] == s[last_index_with(s, r[k].route.id)]
            &&& forall|k1: int, k2: int|
                0 <= k1 < k2 < r.len() ==> (#[trigger] r[k1]).route.id != (
                #[trigger] r[k2]).route.id
            &&& forall|rid: Seq<char>|
                #[trigger] has_route_id(s, rid) ==> has_route_id(r, rid)
            &&& forall|k1: int, k2: int|
                0 <= k1 < k2 < r.len() ==> first_index_with(s, (#[trigger] r[k1]).route.id)
                    < first_index_with(s, (#[trigger] r[k2]).route.id)
        }),
{
    lemma_flatten_from_props(s, 0, Set::empty());
    let r = flatten_actives_spec(s);
    assert forall|rid: Seq<char>| #[trigger] has_route_id(s, rid) implies has_route_id(
        r,
        rid,
    ) by {
        assert(!Set::<Seq<char>>::empty().contains(rid));
        let t = choose|t: int| 0 <= t < s.len() && (#[trigger] s[t]).route.id == rid;
        assert(exists|t: int| 0 <= t < s.len() && (#[trigger] s[t]).route.id == rid);
        let k = choose|k: int| 0 <= k < r.len() && (#[trigger] r[k]).route.id == rid;
        assert(0 <= k < r.len() && r[k].route.id == rid);
    }
}

/// Resolution is a function of the tables and the collection identifier
/// alone: resolving the same collection twice against unchanged tables
/// yields the same result.
pub proof fn lemma_resolve_idempotent(
    m: MocksManagerV,
    id: Seq<char>,
    r1: Result<Seq<ActiveRouteV>, ResolveErrorV>,
    r2: Result<Seq<ActiveRouteV>, ResolveErrorV>,
)
    requires
        r1 == resolve_spec(m, id),
        r2 == resolve_spec(m, id),
    ensures
        r1 == r2,
{
}

/// A lookup that succeeds has an entry at some position.
proof fn lemma_lookup_collection_witness(cs: Seq<CollectionV>, id: Seq<char>)
    requires
        lookup_collection(cs, id) is Some,
    ensures
        exists|i: int|
            0 <= i < cs.len() && (#[trigger] cs[i]).id == id && cs[i] == lookup_collection(
                cs,
                id,
            )->0,
    decreases cs.len(),
{
    if cs.len() > 0 && cs[0].id != id {
        lemma_lookup_collection_witness(cs.drop_first(), id);
        let i = choose|i: int|
            0 <= i < cs.drop_first().len() && (#[trigger] cs.drop_first()[i]).id == id
                && cs.drop_first()[i] == lookup_collection(cs.drop_first(), id)->0;
        assert(cs[i + 1] == cs.drop_first()[i]);
    }
}

/// Cycle detection: two collections that name each other as parents make
/// resolution of either fail with a circular-dependency error carrying the
/// requested identifier.
pub proof fn lemma_cycle_detected(m: MocksManagerV, a: Seq<char>, b: Seq<char>)
    requires
        lookup_collection(m.collections, a) is Some,
        lookup_collection(m.collections, a)->0.from == Some(b),
        lookup_collection(m.collections, b) is Some,
        lookup_collection(m.collections, b)->0.from == Some(a),
    ensures
        resolve_spec(m, a) == Err::<Seq<ActiveRouteV>, ResolveErrorV>(
            ResolveErrorV::CircularDependency { collection_id: a },
        ),
{
    let cs = m.collections;
    let n = cs.len() as nat;
    lemma_lookup_collection_witness(cs, a);
    if a == b {
        assert(n >= 1);
        assert(chain_rec(cs, a, Set::empty().insert(a), (n - 1) as nat) == Err::<
            Seq<CollectionV>,
            ResolveErrorV,
        >(ResolveErrorV::CircularDependency { collection_id: a }));
    } else {
        lemma_lookup_collection_witness(cs, b);
        let ia = choose|i: int|
            0 <= i < cs.len() && (#[trigger] cs[i]).id == a && cs[i] == lookup_collection(
                cs,
                a,
            )->0;
        let ib = choose|i: int|
            0 <= i < cs.len() && (#[trigger] cs[i]).id == b && cs[i] == lookup_collection(
                cs,
                b,
            )->0;
        assert(ia != ib);
        assert(n >= 2);
        let s1 = Set::empty().insert(a);
        let s2 = s1.insert(b);
        assert(!s1.contains(b));
        assert(s2.contains(a));
        assert(chain_rec(cs, a, s2, (n - 2) as nat) == Err::<Seq<CollectionV>, ResolveErrorV>(
            ResolveErrorV::CircularDependency { collection_id: a },
        ));
        assert(chain_rec(cs, b, s1, (n - 1) as nat) == Err::<Seq<CollectionV>, ResolveErrorV>(
            ResolveErrorV::CircularDependency { collection_id: a },
        ));
        assert(chain_rec(cs, a, Set::empty(), n) == Err::<Seq<CollectionV>, ResolveErrorV>(
            ResolveErrorV::CircularDependency { collection_id: a },
        ));
    }
}

/// Number of collections whose identifier is not yet on the walk's path.
pub open spec fn unseen_count(cs: Seq<CollectionV>, seen: Set<Seq<char>>) -> int
    decreases cs.len(),
{
    if cs.len() == 0 {
        0
    } else {
        (if seen.contains(cs[0].id) {
            0int
        } else {
            1int
        }) + unseen_count(cs.drop_first(), seen)
    }
}

proof fn lemma_unseen_count_nonneg(cs: Seq<CollectionV>, seen: Set<Seq<char>>)
    ensures
        0 <= unseen_count(cs, seen) <= cs.len(),
    decreases cs.len(),
{
    if cs.len() > 0 {
        lemma_unseen_count_nonneg(cs.drop_first(), seen);
    }
}

proof fn lemma_unseen_count_absent(cs: Seq<CollectionV>, seen: Set<Seq<char>>, id: Seq<char>)
    requires
        forall|j: int| 0 <= j < cs.len() ==> (#[trigger] cs[j]).id != id,
    ensures
        unseen_count(cs, seen.insert(id)) == unseen_count(cs, seen),
    decreases cs.len(),
{
    if cs.len() > 0 {
        assert forall|j: int| 0 <= j < cs.drop_first().len() implies (
        #[trigger] cs.drop_first()[j]).id != id by {
            assert(cs[j + 1].id != id);
        }
        lemma_unseen_count_absent(cs.drop_first(), seen, id);
    }
}

proof fn lemma_unseen_count_insert(cs: Seq<CollectionV>, seen: Set<Seq<char>>, id: Seq<char>)
    requires
        forall|i: int, j: int|
            0 <= i < j < cs.len() ==> (#[trigger] cs[i]).id != (#[trigger] cs[j]).id,
        lookup_collection(cs, id) is Some,
        !seen.contains(id),
    ensures
        unseen_count(cs, seen.insert(id)) == unseen_count(cs, seen) - 1,
    decreases cs.len(),
{
    if cs[0].id == id {
        assert forall|j: int| 0 <= j < cs.drop_first().len() implies (
        #[trigger] cs.drop_first()[j]).id != id by {
            assert(cs.drop_first()[j] == cs[j + 1]);
        }
        lemma_unseen_count_absent(cs.drop_first(), seen, id);
    } else {
        assert forall|i: int, j: int|
            0 <= i < j < cs.drop_first().len() implies (#[trigger] cs.drop_first()[i]).id != (
        #[trigger] cs.drop_first()[j]).id by {
            assert(cs.drop_first()[i] == cs[i + 1]);
            assert(cs.drop_first()[j] == cs[j + 1]);
        }
        lemma_unseen_count_insert(cs.drop_first(), seen, id);
    }
}

proof fn lemma_unseen_count_positive(cs: Seq<CollectionV>, seen: Set<Seq<char>>, id: Seq<char>)
    requires
        lookup_collection(cs, id) is Some,
        !seen.contains(id),
    ensures
        unseen_count(cs, seen) >= 1,
    decreases cs.len(),
{
    lemma_unseen_count_nonneg(cs.drop_first(), seen);
    if cs.len() > 0 && cs[0].id != id {
        lemma_unseen_count_positive(cs.drop_first(), seen, id);
    }
}

/// With distinct collection identifiers, the chain walk never runs out of
/// fuel: any two fuels that cover the collections not yet on the path give
/// the same result.
pub proof fn lemma_chain_fuel_insensitive(
    cs: Seq<CollectionV>,
    id: Seq<char>,
    seen: Set<Seq<char>>,
    f1: nat,
    f2: nat,
)
    requires
        forall|i: int, j: int|
            0 <= i < j < cs.len() ==> (#[trigger] cs[i]).id != (#[trigger] cs[j]).id,
        f1 >= unseen_count(cs, seen),
        f2 >= unseen_count(cs, seen),
    ensures
        chain_rec(cs, id, seen, f1) == chain_rec(cs, id, seen, f2),
    decreases f1 + f2,
{
    if !seen.contains(id) {
        match lookup_collection(cs, id) {
            None => {},
            Some(c) => {
                match c.from {
                    None => {},
                    Some(pid) => {
                        lemma_unseen_count_positive(cs, seen, id);
                        assert(f1 >= 1 && f2 >= 1);
                        lemma_unseen_count_insert(cs, seen, id);
                        lemma_chain_fuel_insensitive(
                            cs,
                            pid,
                            seen.insert(id),
                            (f1 - 1) as nat,
                            (f2 - 1) as nat,
                        );
                    },
                }
            },
        }
    }
}

/// With distinct collection identifiers, the inheritance chain of a
/// collection is the same under any fuel covering the whole table: the
/// walk's give-up case is never what decides the result.
pub proof fn lemma_chain_fuel_irrelevant(cs: Seq<CollectionV>, id: Seq<char>, f: nat)
    requires
        forall|i: int, j: int|
            0 <= i < j < cs.len() ==> (#[trigger] cs[i]).id != (#[trigger] cs[j]).id,
        f >= cs.len(),
    ensures
        chain_rec(cs, id, Set::empty(), f) == chain_of(cs, id),
{
    lemma_unseen_count_nonneg(cs, Set::empty());
    lemma_chain_fuel_insensitive(cs, id, Set::empty(), f, cs.len() as nat);
}

} // verus!
