//! The graph store: one embedded `agdb` database holding nodes, directed
//! edges and named alias nodes.
//!
//! Everything the rest of the crate knows about the database is stated here,
//! over three abstract views of a [`agdb::DbAny`] value:
//! [`nodes_of`] (address -> field map), [`edges_of`] (the edges in insertion
//! order) and [`aliases_of`] (alias name -> address). Each wrapper below makes
//! exactly one `agdb` call and states, against those views, what the call's
//! source shows it does. Every query runs as its own transaction inside
//! `agdb`, so a failed call leaves the database unchanged.
use agdb::DbErrorCategory;
use agdb::DbErrorType;
use agdb::DbValue;
use agdb::QueryBuilder;
use vstd::prelude::*;

verus! {

/// A value stored under one key of one node. The repository only ever stores
/// unsigned integers, text and lists of text.
#[derive(Debug, Clone)]
pub enum FieldValue {
    U64(u64),
    Text(String),
    TextList(Vec<String>),
}

/// Specification-level image of a [`FieldValue`].
pub enum Val {
    U64(u64),
    Text(Seq<char>),
    TextList(Seq<Seq<char>>),
}

impl View for FieldValue {
    type V = Val;

    open spec fn view(&self) -> Val {
        match self {
            FieldValue::U64(u) => Val::U64(*u),
            FieldValue::Text(s) => Val::Text(s@),
            FieldValue::TextList(v) => Val::TextList(v.deep_view()),
        }
    }
}

/// One directed edge: its own (negative) identifier, source node address and
/// destination node address.
pub struct GEdge {
    pub eid: int,
    pub src: int,
    pub dst: int,
}

/// A store-level failure. The enclosing query has rolled back.
#[derive(Debug, Clone)]
pub struct StoreFault {
    pub message: String,
}

/// Outcome of reading one key of one node.
pub enum GetValue {
    /// The node exists and holds the key with this value.
    Found(FieldValue),
    /// The node does not exist, or exists without the key.
    Missing,
    /// The store failed; nothing is known about the node.
    Fault(String),
}

/// Named predicates and projections over edges, so that every filter and map
/// in the crate uses one shared closure value.
pub open spec fn src_is(a: int) -> spec_fn(GEdge) -> bool {
    |e: GEdge| e.src == a
}

pub open spec fn dst_is(a: int) -> spec_fn(GEdge) -> bool {
    |e: GEdge| e.dst == a
}

/// Edges untouched by removing node `v`.
pub open spec fn untouched_by(v: int) -> spec_fn(GEdge) -> bool {
    |e: GEdge| e.src != v && e.dst != v
}

/// Edges other than the one with identifier `id`.
pub open spec fn not_eid(id: int) -> spec_fn(GEdge) -> bool {
    |e: GEdge| e.eid != id
}

pub open spec fn edge_src() -> spec_fn(GEdge) -> int {
    |e: GEdge| e.src
}

pub open spec fn edge_dst() -> spec_fn(GEdge) -> int {
    |e: GEdge| e.dst
}

pub open spec fn edge_eid() -> spec_fn(GEdge) -> int {
    |e: GEdge| e.eid
}

/// Addresses other than `v`.
pub open spec fn ne_addr(v: int) -> spec_fn(int) -> bool {
    |x: int| x != v
}

/// Widening of machine addresses for specification use.
pub open spec fn addr_int() -> spec_fn(i64) -> int {
    |x: i64| x as int
}

/// An owned handle on one database. The handle is opaque to verification;
/// everything known about it is stated through [`nodes_of`], [`edges_of`]
/// and [`aliases_of`].
#[verifier::external_body]
pub struct Store {
    db: agdb::DbAny,
}

/// The nodes of the database: address -> (key -> value). Node addresses are
/// positive and never collide with edge identifiers, which are negative.
pub uninterp spec fn nodes_of(s: Store) -> Map<int, Map<Seq<char>, Val>>;

/// The edges of the database, in insertion order.
pub uninterp spec fn edges_of(s: Store) -> Seq<GEdge>;

/// The alias table of the database: alias name -> node address.
pub uninterp spec fn aliases_of(s: Store) -> Map<Seq<char>, int>;

impl Store {
    pub open spec fn nodes(self) -> Map<int, Map<Seq<char>, Val>> {
        nodes_of(self)
    }

    pub open spec fn edges(self) -> Seq<GEdge> {
        edges_of(self)
    }

    pub open spec fn aliases(self) -> Map<Seq<char>, int> {
        aliases_of(self)
    }

    pub open spec fn has_node(self, a: int) -> bool {
        self.nodes().dom().contains(a)
    }

    /// The value under `k` at node `a`, if both exist.
    pub open spec fn field(self, a: int, k: Seq<char>) -> Option<Val> {
        if self.has_node(a) && self.nodes()[a].dom().contains(k) {
            Some(self.nodes()[a][k])
        } else {
            None
        }
    }

    /// The out-edges of `a`, in insertion order.
    pub open spec fn out_src(self, a: int) -> Seq<GEdge> {
        self.edges().filter(src_is(a))
    }

    /// The in-edges of `a`, in insertion order.
    pub open spec fn in_dst(self, a: int) -> Seq<GEdge> {
        self.edges().filter(dst_is(a))
    }

    /// Out-neighbour addresses of `a`, newest edge first: the order in which
    /// the store enumerates them.
    pub open spec fn neis(self, a: int) -> Seq<int> {
        self.out_src(a).reverse().map_values(edge_dst())
    }

    /// In-neighbour addresses of `a`, newest edge first.
    pub open spec fn in_neis(self, a: int) -> Seq<int> {
        self.in_dst(a).reverse().map_values(edge_src())
    }

    /// Structural soundness that `agdb` maintains of every database: node
    /// addresses are positive, the node set is finite, edge identifiers are
    /// negative and distinct, edge endpoints are live nodes (removing a node
    /// removes all edges touching it), and aliases point at live nodes.
    pub open spec fn ok(self) -> bool {
        &&& self.nodes().dom().finite()
        &&& forall|a: int| #[trigger] self.nodes().dom().contains(a) ==> a > 0
        &&& forall|i: int|
            0 <= i < self.edges().len() ==> (#[trigger] self.edges()[i]).eid < 0
                && self.has_node(self.edges()[i].src) && self.has_node(self.edges()[i].dst)
        &&& forall|i: int, j: int|
            0 <= i < self.edges().len() && 0 <= j < self.edges().len() && i != j ==> (
            #[trigger] self.edges()[i]).eid != (#[trigger] self.edges()[j]).eid
        &&& forall|n: Seq<char>| #[trigger]
            self.aliases().dom().contains(n) ==> self.has_node(self.aliases()[n])
    }

    /// Relies on `agdb::DbAny::new_file`: creates the database file, or loads
    /// it if it already exists.
    #[verifier::external_body]
    pub(crate) fn open_file(path: &str) -> (r: Result<Store, StoreFault>)
        ensures
            r matches Ok(s) ==> s.ok(),
    {
        match agdb::DbAny::new_file(path) {
            Ok(db) => Ok(Store { db }),
            Err(e) => Err(StoreFault { message: e.description }),
        }
    }

    /// Relies on `agdb::DbAny::new_memory`: creates an in-memory database
    /// (loading an existing file of that name if one exists).
    #[verifier::external_body]
    pub(crate) fn open_memory(name: &str) -> (r: Result<Store, StoreFault>)
        ensures
            r matches Ok(s) ==> s.ok(),
    {
        match agdb::DbAny::new_memory(name) {
            Ok(db) => Ok(Store { db }),
            Err(e) => Err(StoreFault { message: e.description }),
        }
    }

    /// Relies on `agdb::DbImpl::backup`: dumps the database to the given
    /// file, leaving the database itself untouched.
    #[verifier::external_body]
    pub(crate) fn backup_to(&self, path: &str) -> (r: Result<(), StoreFault>) {
        self.db.backup(path).map_err(|e| StoreFault { message: e.description })
    }

    /// Relies on `agdb`'s select query with an alias id: resolves an alias to
    /// its node address; a missing alias reports "not found" at the db layer.
    #[verifier::external_body]
    pub(crate) fn alias_addr(&self, name: &str) -> (r: Result<Option<i64>, StoreFault>)
        requires
            self.ok(),
        ensures
            r matches Ok(o) ==> match o {
                Some(a) => self.aliases().dom().contains(name@) && self.aliases()[name@] == a as int,
                None => !self.aliases().dom().contains(name@),
            },
    {
        match self.db.exec(QueryBuilder::select().ids(name).query()) {
            Ok(res) => match res.elements.first() {
                Some(e) => Ok(Some(e.id.0)),
                None => Err(StoreFault { message: String::from("empty select result") }),
            },
            Err(e) => match (e.category, e.ty) {
                (DbErrorCategory::Db, DbErrorType::NotFound) => Ok(None),
                _ => Err(StoreFault { message: e.description }),
            },
        }
    }

    /// Relies on `agdb`'s insert-nodes query with an alias: inserts one fresh
    /// node (no fields, no edges) and binds the alias to it.
    #[verifier::external_body]
    pub(crate) fn new_alias_node(&mut self, name: &str) -> (r: Result<i64, StoreFault>)
        requires
            old(self).ok(),
            !old(self).aliases().dom().contains(name@),
        ensures
            final(self).ok(),
            r matches Ok(a) ==> a > 0 && !old(self).has_node(a as int)
                && final(self).nodes() == old(self).nodes().insert(
                a as int,
                Map::<Seq<char>, Val>::empty(),
            ) && final(self).edges() == old(self).edges() && final(self).aliases() == old(self).aliases().insert(name@, a as int),
            r is Err ==> *final(self) == *old(self),
    {
        match self.db.exec_mut(QueryBuilder::insert().nodes().aliases(name).query()) {
            Ok(res) => match res.elements.first() {
                Some(e) => Ok(e.id.0),
                None => Err(StoreFault { message: String::from("empty insert result") }),
            },
            Err(e) => Err(StoreFault { message: e.description }),
        }
    }

    /// Relies on `agdb`'s insert-nodes query: inserts one fresh node with no
    /// fields and no edges.
    #[verifier::external_body]
    pub(crate) fn new_node(&mut self) -> (r: Result<i64, StoreFault>)
        requires
            old(self).ok(),
        ensures
            final(self).ok(),
            r matches Ok(a) ==> a > 0 && !old(self).has_node(a as int)
                && final(self).nodes() == old(self).nodes().insert(
                a as int,
                Map::<Seq<char>, Val>::empty(),
            ) && final(self).edges() == old(self).edges() && final(self).aliases() == old(self).aliases(),
            r is Err ==> *final(self) == *old(self),
    {
        match self.db.exec_mut(QueryBuilder::insert().nodes().count(1).query()) {
            Ok(res) => match res.elements.first() {
                Some(e) => Ok(e.id.0),
                None => Err(StoreFault { message: String::from("empty insert result") }),
            },
            Err(e) => Err(StoreFault { message: e.description }),
        }
    }

    /// Relies on `agdb`'s insert-edges query: appends one edge from `from` to
    /// `to` and returns its fresh negative identifier.
    #[verifier::external_body]
    pub(crate) fn new_edge(&mut self, from: i64, to: i64) -> (r: Result<i64, StoreFault>)
        requires
            old(self).ok(),
            old(self).has_node(from as int),
            old(self).has_node(to as int),
        ensures
            final(self).ok(),
            r matches Ok(eid) ==> eid < 0 && final(self).edges() == old(self).edges().push(
                GEdge { eid: eid as int, src: from as int, dst: to as int },
            ) && final(self).nodes() == old(self).nodes() && final(self).aliases() == old(self).aliases(),
            r is Err ==> *final(self) == *old(self),
    {
        match self.db.exec_mut(QueryBuilder::insert().edges().from(from).to(to).query()) {
            Ok(res) => match res.elements.first() {
                Some(e) => Ok(e.id.0),
                None => Err(StoreFault { message: String::from("empty insert result") }),
            },
            Err(e) => Err(StoreFault { message: e.description }),
        }
    }

    /// Relies on `agdb`'s remove query: removes the element with the given
    /// id. Removing a node also removes every edge touching it and any alias
    /// bound to it; removing a missing id succeeds and changes nothing.
    #[verifier::external_body]
    pub(crate) fn remove_element(&mut self, id: i64) -> (r: Result<bool, StoreFault>)
        requires
            old(self).ok(),
            id != 0,
        ensures
            final(self).ok(),
            id > 0 ==> (r matches Ok(b) ==> (b <==> old(self).has_node(id as int)) && final(self).nodes() == old(self).nodes().remove(id as int) && final(self).edges() == old(self).edges().filter(untouched_by(id as int)) && final(self).aliases() == Map::<Seq<char>, int>::new(
                |n: Seq<char>|
                    old(self).aliases().dom().contains(n) && old(self).aliases()[n] != id as int,
                |n: Seq<char>| old(self).aliases()[n],
            )),
            id < 0 && r is Ok ==> final(self).nodes() == old(self).nodes() && final(self).edges() == old(self).edges().filter(not_eid(id as int)) && final(self).aliases() == old(self).aliases(),
            r is Err ==> *final(self) == *old(self),
    {
        match self.db.exec_mut(QueryBuilder::remove().ids(id).query()) {
            Ok(res) => Ok(res.result > 0),
            Err(e) => Err(StoreFault { message: e.description }),
        }
    }

    /// Relies on `agdb`'s select-values query: reads one key of one node.
    /// A missing element or key reports "not found" at the db or query layer.
    #[verifier::external_body]
    pub(crate) fn get_value(&self, addr: i64, key: &str) -> (r: GetValue)
        requires
            self.ok(),
            addr > 0,
        ensures
            r matches GetValue::Found(v) ==> self.field(addr as int, key@) == Some(v@),
            r is Missing ==> self.field(addr as int, key@) is None,
    {
        match self.db.exec(QueryBuilder::select().values(vec![DbValue::from(key)]).ids(addr).query()) {
            Ok(mut res) => match res.elements.pop().and_then(|mut e| e.values.pop()).map(|kv| kv.value) {
                Some(DbValue::U64(u)) => GetValue::Found(FieldValue::U64(u)),
                Some(DbValue::String(s)) => GetValue::Found(FieldValue::Text(s)),
                Some(DbValue::VecString(v)) => GetValue::Found(FieldValue::TextList(v)),
                _ => GetValue::Fault("unexpected select result".to_owned()),
            },
            Err(e) if e.ty == DbErrorType::NotFound => GetValue::Missing,
            Err(e) => GetValue::Fault(e.description),
        }
    }

    /// Relies on `agdb`'s insert-values query: upserts one key of one node.
    #[verifier::external_body]
    pub(crate) fn set_value(&mut self, addr: i64, key: &str, value: &FieldValue) -> (r: Result<
        (),
        StoreFault,
    >)
        requires
            old(self).ok(),
            addr > 0,
        ensures
            final(self).ok(),
            edges_of(*final(self)) == edges_of(*old(self)),
            aliases_of(*final(self)) == aliases_of(*old(self)),
            r is Ok ==> old(self).has_node(addr as int) && nodes_of(*final(self)) == nodes_of(*old(self)).insert(addr as int, nodes_of(*old(self))[addr as int].insert(key@, value@)),
            r is Err ==> nodes_of(*final(self)) == nodes_of(*old(self)),
    {
        let dbv: agdb::DbValue = match value {
            FieldValue::U64(u) => DbValue::U64(*u),
            FieldValue::Text(s) => DbValue::String(s.clone()),
            FieldValue::TextList(v) => DbValue::VecString(v.clone()),
        };
        let q = QueryBuilder::insert().values(vec![vec![(key, dbv).into()]]).ids(addr).query();
        self.db.exec_mut(q).map(|_| ()).map_err(|e| StoreFault { message: e.description })
    }

    /// Relies on `agdb`'s search query from a node, restricted to distance
    /// exactly one: yields the ids of the node's out-edges, newest first.
    #[verifier::external_body]
    pub(crate) fn out_edge_ids(&self, addr: i64) -> (r: Result<Vec<i64>, StoreFault>)
        requires
            self.ok(),
            addr > 0,
            self.has_node(addr as int),
        ensures
            r matches Ok(v) ==> v@.map_values(addr_int()) == self.out_src(addr as int).reverse().map_values(edge_eid()),
    {
        let q = QueryBuilder::search().from(addr).where_().distance(
            agdb::CountComparison::Equal(1),
        ).query();
        match self.db.exec(q) {
            Ok(res) => Ok(res.elements.iter().map(|e| e.id.0).collect()),
            Err(e) => Err(StoreFault { message: e.description }),
        }
    }

    /// Relies on `agdb`'s reverse search query to a node, restricted to
    /// distance exactly one: yields the ids of the node's in-edges, newest
    /// first.
    #[verifier::external_body]
    pub(crate) fn in_edge_ids(&self, addr: i64) -> (r: Result<Vec<i64>, StoreFault>)
        requires
            self.ok(),
            addr > 0,
            self.has_node(addr as int),
        ensures
            r matches Ok(v) ==> v@.map_values(addr_int()) == self.in_dst(addr as int).reverse().map_values(edge_eid()),
    {
        let q = QueryBuilder::search().to(addr).where_().distance(
            agdb::CountComparison::Equal(1),
        ).query();
        match self.db.exec(q) {
            Ok(res) => Ok(res.elements.iter().map(|e| e.id.0).collect()),
            Err(e) => Err(StoreFault { message: e.description }),
        }
    }


    /// Relies on `agdb`'s select node-count query: the number of live nodes,
    /// reported in the query result's count field.
    #[verifier::external_body]
    pub(crate) fn count_nodes(&self) -> (r: Result<u64, StoreFault>)
        requires
            self.ok(),
        ensures
            r matches Ok(n) ==> n as int == self.nodes().dom().len(),
    {
        match self.db.exec(QueryBuilder::select().node_count().query()) {
            Ok(res) => Ok(res.result),
            Err(e) => Err(StoreFault { message: e.description }),
        }
    }

    /// Relies on `agdb`'s select query on an edge id: yields the edge's
    /// source and destination; a missing id reports "not found".
    #[verifier::external_body]
    pub(crate) fn edge_ends(&self, eid: i64) -> (r: Result<Option<(i64, i64)>, StoreFault>)
        requires
            self.ok(),
            eid < 0,
        ensures
            r matches Ok(o) ==> match o {
                Some(p) => exists|i: int|
                    0 <= i < self.edges().len() && (#[trigger] self.edges()[i]).eid == eid as int
                        && self.edges()[i].src == p.0 as int && self.edges()[i].dst == p.1 as int,
                None => forall|i: int|
                    0 <= i < self.edges().len() ==> (#[trigger] self.edges()[i]).eid != eid as int,
            },
    {
        match self.db.exec(QueryBuilder::select().ids(eid).query()) {
            Ok(res) => match res.elements.first() {
                Some(e) => Ok(Some((e.from.0, e.to.0))),
                None => Err(StoreFault { message: String::from("empty select result") }),
            },
            Err(e) => match (e.category, e.ty) {
                (DbErrorCategory::Db, DbErrorType::NotFound) => Ok(None),
                _ => Err(StoreFault { message: e.description }),
            },
        }
    }
}

/// What `heck::ToSnakeCase` computes: a function of the characters alone.
pub uninterp spec fn snake_of(s: Seq<char>) -> Seq<char>;

/// Relies on `heck::ToSnakeCase::to_snake_case`: deterministic snake-casing
/// of the input text.
#[verifier::external_body]
pub(crate) fn snake_case(s: &str) -> (r: String)
    ensures
        r@ == snake_of(s@),
{
    heck::ToSnakeCase::to_snake_case(s)
}

/// Relies on `chrono::Local::now` and its formatter: a compact local
/// timestamp. The result depends on the clock, so nothing is promised of it.
#[verifier::external_body]
pub(crate) fn timestamp_compact() -> (r: String) {
    chrono::Local::now().format("%Y%m%d-%H%M%S").to_string()
}

} // verus!
