//! Plain-value forms of the wire-level types the routing tables handle, the
//! per-role route tables of a resource, and the per-face and per-resource
//! routing contexts.

use std::collections::HashMap;
use std::sync::Arc;
use vstd::prelude::*;

verus! {

/// Numeric id of a declared key expression.
pub type ExprId = u16;

/// Id of a routing node.
pub type NodeId = u16;

/// Id of a key expression interest.
pub type InterestId = u32;

/// Id of a request.
pub type RequestId = u32;

/// Which side of a session declared an expression id.
#[derive(Clone, Copy, Debug, PartialEq, Eq, Structural)]
pub enum Mapping {
    Receiver,
    Sender,
}

/// Role of a node in the network.
#[derive(Clone, Copy, Debug, PartialEq, Eq, Structural)]
pub enum WhatAmI {
    Router,
    Peer,
    Client,
}

/// A key expression as sent on the wire: a declared scope plus a suffix.
#[derive(Debug)]
pub struct WireExpr {
    pub scope: ExprId,
    pub suffix: String,
    pub mapping: Mapping,
}

impl WireExpr {
    /// A plain key expression (no declared scope).
    pub fn from_string(suffix: String) -> (w: WireExpr)
        ensures
            w.scope == 0,
            w.suffix@ == suffix@,
            w.mapping == Mapping::Sender,
    {
        WireExpr { scope: 0, suffix, mapping: Mapping::Sender }
    }

    /// A suffix relative to the declared expression `scope`.
    pub fn scoped(scope: ExprId, suffix: String, mapping: Mapping) -> (w: WireExpr)
        ensures
            w.scope == scope,
            w.suffix@ == suffix@,
            w.mapping == mapping,
    {
        WireExpr { scope, suffix, mapping }
    }
}

/// Declaration of a key expression under an id, to be sent to a face.
#[derive(Debug)]
pub struct DeclareKeyExpr {
    pub id: ExprId,
    pub wire_expr: WireExpr,
}

/// Queryable declaration details.
#[derive(Clone, Copy, Debug, PartialEq, Eq, Structural)]
pub struct QueryableInfo {
    pub complete: bool,
    pub distance: u16,
}

/// Subscriber declaration details.
#[derive(Clone, Copy, Debug, PartialEq, Eq, Structural)]
pub struct SubscriberInfo;

/// Where to forward: the face id, the key as that face knows it, and the node.
pub type Direction = (usize, WireExpr, NodeId);

/// Data route: one direction per face id.
pub type Route = HashMap<usize, Direction>;

/// Query route: one direction and request id per face id.
pub type QueryRoute = HashMap<usize, (Direction, RequestId)>;

/// A queryable target of a query.
#[derive(Debug)]
pub struct QueryTargetQabl {
    pub direction: Direction,
    pub info: Option<QueryableInfo>,
}

pub type QueryTargetQablSet = Vec<QueryTargetQabl>;

/// Indexes of route tables per role.
#[derive(Debug)]
pub struct RoutesIndexes {
    pub routers: Vec<NodeId>,
    pub peers: Vec<NodeId>,
    pub clients: Vec<NodeId>,
}

impl RoutesIndexes {
    pub fn new() -> (r: RoutesIndexes)
        ensures
            r.routers@.len() == 0,
            r.peers@.len() == 0,
            r.clients@.len() == 0,
    {
        RoutesIndexes { routers: Vec::new(), peers: Vec::new(), clients: Vec::new() }
    }
}

/// Routes computed for each role, indexed by routing context.
#[derive(Debug)]
pub struct Routes<T> {
    pub routers: Vec<Arc<T>>,
    pub peers: Vec<Arc<T>>,
    pub clients: Vec<Arc<T>>,
}

/// Routes of data messages.
pub type DataRoutes = Routes<Route>;

/// Routes of queries.
pub type QueryRoutes = Routes<QueryTargetQablSet>;

impl<T> Routes<T> {
    /// The table kept for `whatami`.
    pub open spec fn table(&self, whatami: WhatAmI) -> Seq<Arc<T>> {
        match whatami {
            WhatAmI::Router => self.routers@,
            WhatAmI::Peer => self.peers@,
            WhatAmI::Client => self.clients@,
        }
    }

    /// No route is known for any role.
    pub open spec fn is_empty(&self) -> bool {
        &&& self.routers@.len() == 0
        &&& self.peers@.len() == 0
        &&& self.clients@.len() == 0
    }

    /// What `get_route` gives for a role and context.
    pub open spec fn route_at(&self, whatami: WhatAmI, context: NodeId) -> Option<Arc<T>> {
        if (context as int) < self.table(whatami).len() {
            Some(self.table(whatami)[context as int])
        } else {
            None
        }
    }

    /// Empty route tables.
    pub fn new() -> (r: Routes<T>)
        ensures
            r.is_empty(),
    {
        Routes { routers: Vec::new(), peers: Vec::new(), clients: Vec::new() }
    }

    /// The route for `whatami` in routing context `context`, if one was computed.
    pub fn get_route(&self, whatami: WhatAmI, context: NodeId) -> (r: Option<Arc<T>>)
        ensures
            r == self.route_at(whatami, context),
    {
        let table = match whatami {
            WhatAmI::Router => &self.routers,
            WhatAmI::Peer => &self.peers,
            WhatAmI::Client => &self.clients,
        };
        let i = context as usize;
        if i < table.len() {
            Some(Arc::clone(&table[i]))
        } else {
            None
        }
    }
}

/// What a resource knows of one face (session).
pub struct SessionContext<X> {
    pub face: usize,
    pub local_expr_id: Option<ExprId>,
    pub remote_expr_id: Option<ExprId>,
    pub subs: Option<SubscriberInfo>,
    pub qabl: Option<QueryableInfo>,
    pub token: bool,
    pub in_interceptor_cache: Option<X>,
    pub e_interceptor_cache: Option<X>,
}

impl<X> SessionContext<X> {
    /// A context for `face` that declares nothing yet.
    pub open spec fn is_fresh_for(&self, face: usize) -> bool {
        &&& self.face == face
        &&& self.local_expr_id is None
        &&& self.remote_expr_id is None
        &&& self.subs is None
        &&& self.qabl is None
        &&& !self.token
        &&& self.in_interceptor_cache is None
        &&& self.e_interceptor_cache is None
    }

    pub fn new(face: usize) -> (s: SessionContext<X>)
        ensures
            s.is_fresh_for(face),
    {
        SessionContext {
            face,
            local_expr_id: None,
            remote_expr_id: None,
            subs: None,
            qabl: None,
            token: false,
            in_interceptor_cache: None,
            e_interceptor_cache: None,
        }
    }
}

/// Routing state of a resource that something was declared on.
pub struct ResourceContext<H> {
    pub matches: Vec<usize>,
    pub hat: H,
    pub valid_data_routes: bool,
    pub data_routes: DataRoutes,
    pub valid_query_routes: bool,
    pub query_routes: QueryRoutes,
}

impl<H> ResourceContext<H> {
    /// A context just created with `hat`: no matches, no valid routes.
    pub open spec fn is_fresh_with(&self, hat: H) -> bool {
        &&& self.matches@.len() == 0
        &&& self.hat == hat
        &&& !self.valid_data_routes
        &&& self.data_routes.is_empty()
        &&& !self.valid_query_routes
        &&& self.query_routes.is_empty()
    }

    pub fn new(hat: H) -> (c: ResourceContext<H>)
        ensures
            c.is_fresh_with(hat),
    {
        ResourceContext {
            matches: Vec::new(),
            hat,
            valid_data_routes: false,
            data_routes: Routes::new(),
            valid_query_routes: false,
            query_routes: Routes::new(),
        }
    }

    pub fn update_data_routes(&mut self, data_routes: DataRoutes)
        ensures
            final(self).valid_data_routes,
            final(self).data_routes == data_routes,
            final(self).matches == old(self).matches,
            final(self).hat == old(self).hat,
            final(self).valid_query_routes == old(self).valid_query_routes,
            final(self).query_routes == old(self).query_routes,
    {
        self.valid_data_routes = true;
        self.data_routes = data_routes;
    }

    pub fn disable_data_routes(&mut self)
        ensures
            !final(self).valid_data_routes,
            final(self).data_routes == old(self).data_routes,
            final(self).matches == old(self).matches,
            final(self).hat == old(self).hat,
            final(self).valid_query_routes == old(self).valid_query_routes,
            final(self).query_routes == old(self).query_routes,
    {
        self.valid_data_routes = false;
    }

    pub fn update_query_routes(&mut self, query_routes: QueryRoutes)
        ensures
            final(self).valid_query_routes,
            final(self).query_routes == query_routes,
            final(self).matches == old(self).matches,
            final(self).hat == old(self).hat,
            final(self).valid_data_routes == old(self).valid_data_routes,
            final(self).data_routes == old(self).data_routes,
    {
        self.valid_query_routes = true;
        self.query_routes = query_routes;
    }

    pub fn disable_query_routes(&mut self)
        ensures
            !final(self).valid_query_routes,
            final(self).query_routes == old(self).query_routes,
            final(self).matches == old(self).matches,
            final(self).hat == old(self).hat,
            final(self).valid_data_routes == old(self).valid_data_routes,
            final(self).data_routes == old(self).data_routes,
    {
        self.valid_query_routes = false;
    }
}

} // verus!
