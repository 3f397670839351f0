//! The repository: roots, well-formedness, bootstrap and uid allocation.
//!
//! One [`Repository`] owns one [`Store`] plus the addresses of the well-known
//! root nodes. All relationships are edges: the "games" root points at every
//! game, a game points at its profiles and mods, a profile points at the head
//! of its mod-entry chain, each entry at its successor and at its mod, and
//! the "active_game" / "active_profile" roots carry the "currently active"
//! pointers. The ghost `chains` map holds, for every profile, the sequence
//! of its entry addresses in load order; [`Repository::wf`] ties it to the
//! edges of the store.
use vstd::prelude::*;

use crate::errors::Error;
use crate::fsops::FsOp;
use crate::ids::EntityId;
use crate::store::{FieldValue, GEdge, GetValue, Store, Val};

verus! {

/// How a game's mods are deployed.
#[derive(Debug, Clone, Copy, PartialEq, Eq, Structural)]
pub enum DeployKind {
    CreationEngine,
    Gamebryo,
    OpenMW,
    Overlay,
}

impl DeployKind {
    /// The integer code under which this kind is stored.
    pub open spec fn code_spec(self) -> u64 {
        match self {
            DeployKind::CreationEngine => 1,
            DeployKind::Gamebryo => 2,
            DeployKind::OpenMW => 3,
            DeployKind::Overlay => 4,
        }
    }

    pub fn code(&self) -> (r: u64)
        ensures
            r == self.code_spec(),
    {
        match self {
            DeployKind::CreationEngine => 1,
            DeployKind::Gamebryo => 2,
            DeployKind::OpenMW => 3,
            DeployKind::Overlay => 4,
        }
    }

    /// Decode a stored deploy-kind code.
    pub fn from_code(c: u64) -> (r: Option<DeployKind>)
        ensures
            r matches Some(k) ==> k.code_spec() == c,
            r is None ==> !(1 <= c <= 4),
    {
        match c {
            1 => Some(DeployKind::CreationEngine),
            2 => Some(DeployKind::Gamebryo),
            3 => Some(DeployKind::OpenMW),
            4 => Some(DeployKind::Overlay),
            _ => None,
        }
    }
}

/// Entity kind codes stored under the `"kind"` key.
pub const KIND_GAME: u64 = 1;

pub const KIND_PROFILE: u64 = 2;

pub const KIND_MOD: u64 = 3;

pub const KIND_ENTRY: u64 = 4;

pub const KIND_TOOL: u64 = 5;

/// Addresses of the root nodes that carry data or edges.
#[derive(Debug, Clone, Copy, PartialEq, Eq, Structural)]
pub struct Roots {
    pub games: i64,
    pub tools: i64,
    pub active_game: i64,
    pub active_profile: i64,
    pub version: i64,
    pub counter: i64,
}

/// The repository: a store handle, the bootstrapped roots, the base library
/// directory, the queue of requested filesystem effects, and the ghost image
/// of every profile's entry chain.
pub struct Repository {
    pub store: Store,
    pub roots: Roots,
    pub lib_dir: String,
    pub fs: Vec<FsOp>,
    pub poisoned: bool,
    pub chains: Ghost<Map<int, Seq<int>>>,
}

/// The schema version this build writes.
pub const MODEL_VERSION: u64 = 1;

/// The nodes carrying entity kind `k` in store `s`: the one filter closure
/// every kind-based listing uses.
pub open spec fn kind_pred(s: Store, k: u64) -> spec_fn(int) -> bool {
    |a: int| s.field(a, "kind"@) == Some(Val::U64(k))
}

impl Repository {
    pub open spec fn st(self) -> Store {
        self.store
    }

    /// The node at `a` carries entity kind `k`.
    pub open spec fn is_kind(self, a: int, k: u64) -> bool {
        self.st().field(a, "kind"@) == Some(Val::U64(k))
    }

    pub open spec fn name_of(self, a: int) -> Option<Val> {
        self.st().field(a, "name"@)
    }

    /// Games in listing order (newest first).
    pub open spec fn games_v(self) -> Seq<int> {
        self.st().neis(self.roots.games as int)
    }

    /// Profiles of game `g` in listing order.
    pub open spec fn profiles_v(self, g: int) -> Seq<int> {
        self.st().neis(g).filter(kind_pred(self.st(), KIND_PROFILE))
    }

    /// Mods of game `g` in listing order.
    pub open spec fn mods_v(self, g: int) -> Seq<int> {
        self.st().neis(g).filter(kind_pred(self.st(), KIND_MOD))
    }

    pub open spec fn tools_v(self) -> Seq<int> {
        self.st().neis(self.roots.tools as int)
    }

    /// Targets of the global active-game pointer (at most one under `wf`).
    pub open spec fn actives_v(self) -> Seq<int> {
        self.st().neis(self.roots.active_game as int)
    }

    /// Targets of the per-game active-profile pointers.
    pub open spec fn active_ps_v(self) -> Seq<int> {
        self.st().neis(self.roots.active_profile as int)
    }

    /// Entry-kind out-neighbours of `x`: the chain successor, if any.
    pub open spec fn entry_neis(self, x: int) -> Seq<int> {
        self.st().neis(x).filter(kind_pred(self.st(), KIND_ENTRY))
    }

    /// Mod-kind out-neighbours of `x`: for an entry, its referenced mod.
    pub open spec fn mod_neis(self, x: int) -> Seq<int> {
        self.st().neis(x).filter(kind_pred(self.st(), KIND_MOD))
    }

    /// Game-kind in-neighbours of `x`: for a profile or mod, its parent.
    pub open spec fn game_in_neis(self, x: int) -> Seq<int> {
        self.st().in_neis(x).filter(kind_pred(self.st(), KIND_GAME))
    }

    /// The uid stored at `a`, if any.
    pub open spec fn uid_of(self, a: int) -> Option<Val> {
        self.st().field(a, "uid"@)
    }

    /// The value of the uid counter.
    pub open spec fn counter_of(self) -> Option<Val> {
        self.st().field(self.roots.counter as int, "next_uid"@)
    }

    /// A node shaped like a game: kind, uid, name, deploy kind and targets.
    pub open spec fn game_ok(self, a: int) -> bool {
        &&& a > 0
        &&& self.is_kind(a, KIND_GAME)
        &&& self.uid_of(a) matches Some(u) && u is U64
        &&& self.name_of(a) matches Some(n) && n is Text
        &&& self.st().field(a, "deploy_kind"@) matches Some(d) && d matches Val::U64(c) && 1 <= c
            <= 4
        &&& self.st().field(a, "targets"@) matches Some(t) && t is TextList
    }

    /// A node shaped like a profile.
    pub open spec fn profile_ok(self, a: int) -> bool {
        &&& a > 0
        &&& self.is_kind(a, KIND_PROFILE)
        &&& self.uid_of(a) matches Some(u) && u is U64
        &&& self.name_of(a) matches Some(n) && n is Text
    }

    /// A node shaped like a mod.
    pub open spec fn mod_ok(self, a: int) -> bool {
        &&& a > 0
        &&& self.is_kind(a, KIND_MOD)
        &&& self.uid_of(a) matches Some(u) && u is U64
        &&& self.name_of(a) matches Some(n) && n is Text
    }

    /// A node shaped like a mod entry.
    pub open spec fn entry_ok(self, a: int) -> bool {
        &&& a > 0
        &&& self.is_kind(a, KIND_ENTRY)
        &&& self.uid_of(a) matches Some(u) && u is U64
        &&& self.st().field(a, "enabled"@) matches Some(e) && e is U64
        &&& self.st().field(a, "notes"@) matches Some(n) && n is Text
    }

    /// A node shaped like a tool.
    pub open spec fn tool_ok(self, a: int) -> bool {
        &&& a > 0
        &&& self.is_kind(a, KIND_TOOL)
        &&& self.uid_of(a) matches Some(u) && u is U64
        &&& self.name_of(a) matches Some(n) && n is Text
        &&& self.st().field(a, "path"@) matches Some(p) && p is Text
        &&& self.st().field(a, "args"@) matches Some(x) && x is Text
    }

    /// A root node: live, positive, and not an entity (no kind field).
    pub open spec fn root_ok(self, a: int) -> bool {
        a > 0 && self.st().has_node(a) && self.st().field(a, "kind"@) is None
    }

    pub open spec fn roots_ok(self) -> bool {
        &&& self.root_ok(self.roots.games as int)
        &&& self.root_ok(self.roots.tools as int)
        &&& self.root_ok(self.roots.active_game as int)
        &&& self.root_ok(self.roots.active_profile as int)
        &&& self.root_ok(self.roots.version as int)
        &&& self.root_ok(self.roots.counter as int)
        &&& self.roots.games != self.roots.tools
        &&& self.roots.games != self.roots.active_game
        &&& self.roots.games != self.roots.active_profile
        &&& self.roots.tools != self.roots.active_game
        &&& self.roots.tools != self.roots.active_profile
        &&& self.roots.active_game != self.roots.active_profile
    }

    pub open spec fn games_ok(self) -> bool {
        &&& self.games_v().no_duplicates()
        &&& forall|i: int|
            0 <= i < self.games_v().len() ==> self.game_ok(#[trigger] self.games_v()[i])
    }

    pub open spec fn actives_ok(self) -> bool {
        &&& self.actives_v().len() <= 1
        &&& forall|i: int|
            0 <= i < self.actives_v().len() ==> self.games_v().contains(
                #[trigger] self.actives_v()[i],
            )
    }

    /// Children of one game are well-shaped and unambiguous.
    pub open spec fn game_children_ok(self, g: int) -> bool {
        &&& self.profiles_v(g).no_duplicates()
        &&& forall|i: int|
            0 <= i < self.profiles_v(g).len() ==> self.profile_ok(#[trigger] self.profiles_v(g)[i])
        &&& forall|i: int|
            0 <= i < self.profiles_v(g).len() ==> self.game_in_neis(
                #[trigger] self.profiles_v(g)[i],
            ) == seq![g]
        &&& self.mods_v(g).no_duplicates()
        &&& forall|i: int|
            0 <= i < self.mods_v(g).len() ==> self.mod_ok(#[trigger] self.mods_v(g)[i])
        &&& forall|i: int|
            0 <= i < self.mods_v(g).len() ==> self.game_in_neis(#[trigger] self.mods_v(g)[i])
                == seq![g]
    }

    /// Some listed game owns `p` as a profile.
    pub open spec fn is_profile(self, p: int) -> bool {
        exists|gi: int|
            0 <= gi < self.games_v().len() && self.profiles_v(#[trigger] self.games_v()[gi]).contains(
                p,
            )
    }

    /// Some listed game owns `m` as a mod.
    pub open spec fn is_mod(self, m: int) -> bool {
        exists|gi: int|
            0 <= gi < self.games_v().len() && self.mods_v(#[trigger] self.games_v()[gi]).contains(
                m,
            )
    }

    pub open spec fn children_ok(self) -> bool {
        &&& forall|i: int|
            0 <= i < self.games_v().len() ==> self.game_children_ok(#[trigger] self.games_v()[i])
        &&& forall|i: int, j: int, p: int|
            0 <= i < self.games_v().len() && 0 <= j < self.games_v().len() && i != j && #[trigger] self.profiles_v(self.games_v()[i]).contains(p) ==> !(#[trigger] self.profiles_v(self.games_v()[j]).contains(p))
        &&& forall|i: int, j: int, m: int|
            0 <= i < self.games_v().len() && 0 <= j < self.games_v().len() && i != j && #[trigger] self.mods_v(self.games_v()[i]).contains(m) ==> !(#[trigger] self.mods_v(self.games_v()[j]).contains(m))
    }

    /// Per-game active-profile pointers: each target is a profile of some
    /// game; for each game, exactly one target when it has profiles and none
    /// when it has none.
    pub open spec fn active_ps_ok(self) -> bool {
        &&& self.active_ps_v().no_duplicates()
        &&& forall|i: int|
            0 <= i < self.active_ps_v().len() ==> self.is_profile(#[trigger] self.active_ps_v()[i])
        &&& forall|gi: int|
            0 <= gi < self.games_v().len() ==> self.active_ps_v().filter(
                |p: int| self.profiles_v(#[trigger] self.games_v()[gi]).contains(p),
            ).len() <= 1
    }

    /// One profile's chain: consecutive entries linked by single entry-kind
    /// edges, distinct, each entry well-shaped with at most one referenced
    /// mod, which is itself well-shaped.
    pub open spec fn chain_ok(self, p: int, c: Seq<int>) -> bool {
        &&& c.no_duplicates()
        &&& self.entry_neis(p) == (if c.len() == 0 {
            Seq::<int>::empty()
        } else {
            seq![c[0]]
        })
        &&& forall|i: int| 0 <= i < c.len() ==> self.entry_ok(#[trigger] c[i])
        &&& forall|i: int|
            0 <= i < c.len() - 1 ==> self.entry_neis(#[trigger] c[i]) == seq![c[i + 1]]
        &&& c.len() > 0 ==> self.entry_neis(c[c.len() - 1]) == Seq::<int>::empty()
        &&& forall|i: int|
            0 <= i < c.len() ==> (#[trigger] self.mod_neis(c[i])).len() <= 1
        &&& forall|i: int|
            0 <= i < c.len() && self.mod_neis(#[trigger] c[i]).len() == 1 ==> self.mod_ok(
                self.mod_neis(c[i])[0],
            )
    }

    pub open spec fn chains_ok(self) -> bool {
        &&& forall|p: int| self.is_profile(p) <==> self.chains@.dom().contains(p)
        &&& forall|p: int| #[trigger]
            self.chains@.dom().contains(p) ==> self.chain_ok(p, self.chains@[p])
        &&& forall|p1: int, p2: int, e: int|
            self.chains@.dom().contains(p1) && self.chains@.dom().contains(p2) && p1 != p2 && #[trigger] self.chains@[p1].contains(e) ==> !(#[trigger] self.chains@[p2].contains(e))
    }

    pub open spec fn counter_ok(self) -> bool {
        self.counter_of() matches Some(v) && v is U64
    }

    pub open spec fn tools_ok(self) -> bool {
        &&& self.tools_v().no_duplicates()
        &&& forall|i: int|
            0 <= i < self.tools_v().len() ==> self.tool_ok(#[trigger] self.tools_v()[i])
    }

    /// Structural well-formedness of a working repository.
    pub open spec fn wf_state(self) -> bool {
        &&& self.st().ok()
        &&& self.roots_ok()
        &&& self.games_ok()
        &&& self.actives_ok()
        &&& self.children_ok()
        &&& self.active_ps_ok()
        &&& self.chains_ok()
        &&& self.counter_ok()
        &&& self.tools_ok()
    }

    /// The repository either works and is well-formed, or an earlier store
    /// failure mid-mutation has poisoned it and every operation refuses.
    pub open spec fn wf(self) -> bool {
        self.poisoned || self.wf_state()
    }
}


/// The store already carries every root this layer bootstraps, at the version
/// this build writes.
pub open spec fn bootstrapped(s: Store) -> bool {
    &&& s.aliases().dom().contains("games"@)
    &&& s.aliases().dom().contains("profiles"@)
    &&& s.aliases().dom().contains("mods"@)
    &&& s.aliases().dom().contains("mod_entries"@)
    &&& s.aliases().dom().contains("tools"@)
    &&& s.aliases().dom().contains("active_game"@)
    &&& s.aliases().dom().contains("active_profile"@)
    &&& s.aliases().dom().contains("model_version"@)
    &&& s.aliases().dom().contains("next_uid"@)
    &&& s.field(s.aliases()["next_uid"@], "next_uid"@) matches Some(v) && v is U64
    &&& s.field(s.aliases()["model_version"@], "model_version"@) == Some(Val::U64(MODEL_VERSION))
}

impl Repository {
    /// Resolve the root alias, inserting a fresh alias node if it is missing.
    fn ensure_root(s: &mut Store, name: &str) -> (r: Result<i64, Error>)
        requires
            old(s).ok(),
        ensures
            final(s).ok(),
            old(s).aliases().dom().contains(name@) ==> *final(s) == *old(s),
            r matches Ok(a) ==> a > 0 && final(s).has_node(a as int) && final(s).aliases().dom().contains(name@) && final(s).aliases()[name@] == a as int,
            old(s).aliases().dom().contains(name@) ==> (r matches Ok(a) ==> a as int == old(s).aliases()[name@]),
            !old(s).aliases().dom().contains(name@) ==> (r matches Ok(a) ==> !old(s).has_node(
                a as int,
            ) && final(s).nodes() == old(s).nodes().insert(a as int, Map::<Seq<char>, Val>::empty())
                && final(s).edges() == old(s).edges() && final(s).aliases() == old(s).aliases().insert(name@, a as int)),
            r is Err ==> *final(s) == *old(s),
            r matches Err(e) ==> e is Internal,
    {
        match s.alias_addr(name) {
            Ok(Some(a)) => {
                proof {
                    assert(s.has_node(s.aliases()[name@]));
                }
                Ok(a)
            },
            Ok(None) => match s.new_alias_node(name) {
                Ok(a) => Ok(a),
                Err(f) => Err(Error::Internal(f.message)),
            },
            Err(f) => Err(Error::Internal(f.message)),
        }
    }

    /// Bootstrap a repository over an open store: idempotently insert the
    /// named root nodes, the uid counter and the schema-version record; when
    /// the stored version is older than this build's, take a timestamped
    /// backup into `backup_dir` and advance the record (no older on-disk
    /// schema exists, so no data transformation runs).

    #[verifier::spinoff_prover]
       pub fn attach(store: Store, lib_dir: String, backup_dir: &str) -> (r: Result<
        Repository,
        Error,
    >)
        requires
            store.ok(),
        ensures
            r matches Ok(repo) ==> {
                &&& !repo.poisoned
                &&& repo.store.ok()
                &&& repo.fs@ == Seq::<FsOp>::empty()
                &&& repo.chains@ == Map::<int, Seq<int>>::empty()
                &&& repo.lib_dir == lib_dir
                &&& (store.nodes().dom() == Set::<int>::empty() ==> {
                    &&& repo.wf_state()
                    &&& repo.st().aliases().dom().contains("games"@) && repo.st().aliases()["games"@] == repo.roots.games as int
                    &&& repo.st().aliases().dom().contains("profiles"@)
                    &&& repo.st().aliases().dom().contains("mods"@)
                    &&& repo.st().aliases().dom().contains("mod_entries"@)
                    &&& repo.st().aliases().dom().contains("tools"@) && repo.st().aliases()["tools"@] == repo.roots.tools as int
                    &&& repo.st().aliases().dom().contains("active_game"@) && repo.st().aliases()["active_game"@] == repo.roots.active_game as int
                    &&& repo.st().aliases().dom().contains("active_profile"@) && repo.st().aliases()["active_profile"@] == repo.roots.active_profile as int
                    &&& repo.st().aliases().dom().contains("model_version"@) && repo.st().aliases()["model_version"@] == repo.roots.version as int
                    &&& repo.st().aliases().dom().contains("next_uid"@) && repo.st().aliases()["next_uid"@] == repo.roots.counter as int
                    &&& repo.counter_of() == Some(Val::U64(0))
                    &&& repo.st().field(repo.roots.version as int, "model_version"@) == Some(
                        Val::U64(MODEL_VERSION),
                    )
                    &&& repo.games_v() == Seq::<int>::empty()
                })
                &&& (bootstrapped(store) ==> repo.store.nodes() == store.nodes()
                    && repo.store.edges() == store.edges() && repo.store.aliases()
                    == store.aliases())
                &&& (store.aliases().dom().contains("games"@) ==> repo.roots.games as int
                    == store.aliases()["games"@])
                &&& (store.aliases().dom().contains("next_uid"@) && (store.field(
                    store.aliases()["next_uid"@],
                    "next_uid"@,
                ) matches Some(v) && v is U64) ==> repo.counter_of() == store.field(
                    store.aliases()["next_uid"@],
                    "next_uid"@,
                ))
            },
            r matches Err(e) ==> e is Internal,
    {
        let mut s = store;
        let ghost s0 = s;
        proof {
            lemma_root_names();
            lemma_field_keys();
            if s0.nodes().dom() == Set::<int>::empty() {
                assert forall|n: Seq<char>| !s0.aliases().dom().contains(n) by {
                    if s0.aliases().dom().contains(n) {
                        assert(s0.has_node(s0.aliases()[n]));
                    }
                }
                assert(s0.edges().len() == 0) by {
                    if s0.edges().len() > 0 {
                        assert(s0.has_node(s0.edges()[0].src));
                    }
                }
            }
        }
        let rg = Self::ensure_root(&mut s, "games")?;
        let rp = Self::ensure_root(&mut s, "profiles")?;
        let rm = Self::ensure_root(&mut s, "mods")?;
        let re = Self::ensure_root(&mut s, "mod_entries")?;
        let rt = Self::ensure_root(&mut s, "tools")?;
        let rag = Self::ensure_root(&mut s, "active_game")?;
        let rap = Self::ensure_root(&mut s, "active_profile")?;
        let rmv = Self::ensure_root(&mut s, "model_version")?;
        let rct = Self::ensure_root(&mut s, "next_uid")?;
        match s.get_value(rct, "next_uid") {
            GetValue::Found(FieldValue::U64(_)) => (),
            GetValue::Found(_) => {
                return Err(Error::Internal("uid counter holds a non-integer".to_owned()));
            },
            GetValue::Missing => match s.set_value(rct, "next_uid", &FieldValue::U64(0)) {
                Ok(()) => (),
                Err(f) => {
                    return Err(Error::Internal(f.message));
                },
            },
            GetValue::Fault(m) => {
                return Err(Error::Internal(m));
            },
        }
        match s.get_value(rmv, "model_version") {
            GetValue::Found(FieldValue::U64(v)) => {
                if v < MODEL_VERSION {
                    let stamp = crate::store::timestamp_compact();
                    let mut bpath = backup_dir.to_owned();
                    bpath.append("/data-");
                    bpath.append(stamp.as_str());
                    bpath.append(".db.bak");
                    match s.backup_to(bpath.as_str()) {
                        Ok(()) => (),
                        Err(f) => {
                            return Err(Error::Internal(f.message));
                        },
                    }
                    match s.set_value(rmv, "model_version", &FieldValue::U64(MODEL_VERSION)) {
                        Ok(()) => (),
                        Err(f) => {
                            return Err(Error::Internal(f.message));
                        },
                    }
                }
            },
            GetValue::Found(_) => {
                return Err(Error::Internal("version record holds a non-integer".to_owned()));
            },
            GetValue::Missing => match s.set_value(rmv, "model_version", &FieldValue::U64(
                MODEL_VERSION,
            )) {
                Ok(()) => (),
                Err(f) => {
                    return Err(Error::Internal(f.message));
                },
            },
            GetValue::Fault(m) => {
                return Err(Error::Internal(m));
            },
        }
        let repo = Repository {
            store: s,
            roots: Roots {
                games: rg,
                tools: rt,
                active_game: rag,
                active_profile: rap,
                version: rmv,
                counter: rct,
            },
            lib_dir,
            fs: Vec::new(),
            poisoned: false,
            chains: Ghost(Map::empty()),
        };
        proof {
            if s0.nodes().dom() == Set::<int>::empty() {
                crate::model::lemma_no_edges(repo.store);
                assert(repo.games_v() =~= Seq::<int>::empty());
                assert(repo.wf_state());
            }
        }
        Ok(repo)
    }
}

impl Repository {
    /// Open (or create) a file-backed repository and bootstrap it.
    pub fn open_file(path: &str, lib_dir: String, backup_dir: &str) -> (r: Result<
        Repository,
        Error,
    >)
        ensures
            r matches Ok(repo) ==> !repo.poisoned && repo.store.ok() && repo.fs@ == Seq::<
                FsOp,
            >::empty(),
    {
        match Store::open_file(path) {
            Ok(s) => Self::attach(s, lib_dir, backup_dir),
            Err(f) => Err(Error::Internal(f.message)),
        }
    }

    /// Open an in-memory repository (for tests and tooling) and bootstrap it.
    pub fn open_memory(name: &str, lib_dir: String, backup_dir: &str) -> (r: Result<
        Repository,
        Error,
    >)
        ensures
            r matches Ok(repo) ==> !repo.poisoned && repo.store.ok() && repo.fs@ == Seq::<
                FsOp,
            >::empty(),
    {
        match Store::open_memory(name) {
            Ok(s) => Self::attach(s, lib_dir, backup_dir),
            Err(f) => Err(Error::Internal(f.message)),
        }
    }

    /// Hand out the queued filesystem effects, in the order the operations
    /// requested them, leaving the queue empty.
    pub fn take_fs_ops(&mut self) -> (r: Vec<FsOp>)
        ensures
            r@ == old(self).fs@,
            final(self).fs@ == Seq::<FsOp>::empty(),
            final(self).store == old(self).store,
            final(self).roots == old(self).roots,
            final(self).lib_dir == old(self).lib_dir,
            final(self).poisoned == old(self).poisoned,
            final(self).chains == old(self).chains,
    {
        let mut out: Vec<FsOp> = Vec::new();
        core::mem::swap(&mut out, &mut self.fs);
        out
    }

    /// Allocate the next uid: read the counter, hand the value out, and store
    /// the incremented counter back.
    #[verifier::rlimit(50)]

    #[verifier::spinoff_prover]
       pub(crate) fn alloc_uid(&mut self) -> (r: Result<u64, Error>)
        requires
            old(self).wf_state(),
        ensures
            final(self).wf_state(),
            final(self).roots == old(self).roots,
            final(self).lib_dir == old(self).lib_dir,
            final(self).fs == old(self).fs,
            final(self).poisoned == old(self).poisoned,
            final(self).chains == old(self).chains,
            final(self).st().edges() == old(self).st().edges(),
            final(self).st().aliases() == old(self).st().aliases(),
            r matches Ok(u) ==> {
                &&& old(self).counter_of() == Some(Val::U64(u))
                &&& u < u64::MAX
                &&& final(self).counter_of() == Some(Val::U64((u + 1) as u64))
                &&& final(self).st().nodes() == old(self).st().nodes().insert(
                    old(self).roots.counter as int,
                    old(self).st().nodes()[old(self).roots.counter as int].insert(
                        "next_uid"@,
                        Val::U64((u + 1) as u64),
                    ),
                )
            },
            r is Err ==> final(self).st().nodes() == old(self).st().nodes(),
            forall|b: int, k: Seq<char>|
                b != old(self).roots.counter as int ==> final(self).st().field(b, k) == old(self).st().field(b, k),
            final(self).st().field(old(self).roots.counter as int, "kind"@) == old(self).st().field(old(self).roots.counter as int, "kind"@),
            r matches Err(e) ==> e is Internal,
    {
        let ct = self.roots.counter;
        let u: u64 = match self.store.get_value(ct, "next_uid") {
            GetValue::Found(FieldValue::U64(u)) => u,
            GetValue::Found(_) => {
                proof {
                    assert(self.wf_state());
                }
                return Err(Error::Internal("uid counter holds a non-integer".to_owned()));
            },
            GetValue::Missing => {
                proof {
                    assert(self.wf_state());
                }
                return Err(Error::Internal("uid counter record is missing".to_owned()));
            },
            GetValue::Fault(m) => {
                proof {
                    assert(self.wf_state());
                }
                return Err(Error::Internal(m));
            },
        };
        if u == u64::MAX {
            proof {
                assert(self.wf_state());
            }
            return Err(Error::Internal("uid counter is exhausted".to_owned()));
        }
        let ghost pre = *self;
        match self.store.set_value(ct, "next_uid", &FieldValue::U64(u + 1)) {
            Ok(()) => {
                proof {
                    lemma_field_keys();
                    lemma_wf_frame_nonentity(pre, *self, pre.roots.counter as int);
                    assert(self.wf_state());
                }
                Ok(u)
            },
            Err(f) => {
                proof {
                    lemma_wf_frame_nonentity(pre, *self, 0);
                }
                Err(Error::Internal(f.message))
            },
        }
    }
}

impl Repository {
    /// All out-neighbour addresses of node `a`, newest edge first.

    #[verifier::spinoff_prover]
       pub(crate) fn out_neighbors(&self, a: i64) -> (r: Result<Vec<i64>, Error>)
        requires
            self.st().ok(),
            a > 0,
            self.st().has_node(a as int),
        ensures
            r matches Ok(v) ==> v@.map_values(crate::store::addr_int()) == self.st().neis(a as int)
                && (forall|i: int|
                0 <= i < v@.len() ==> #[trigger] v@[i] > 0 && self.st().has_node(v@[i] as int)),
            r matches Err(e) ==> e is Internal,
    {
        let eids = match self.store.out_edge_ids(a) {
            Ok(v) => v,
            Err(f) => {
                return Err(Error::Internal(f.message));
            },
        };
        let ghost rev = self.st().out_src(a as int).reverse();
        proof {
            assert(eids@.map_values(crate::store::addr_int()).len() == eids@.len());
            assert(rev.map_values(crate::store::edge_eid()).len() == rev.len());
            assert(rev.len() == self.st().out_src(a as int).len());
            assert forall|i: int| 0 <= i < rev.len() implies self.st().edges().contains(
                #[trigger] rev[i],
            ) && rev[i].src == a as int by {
                let j = rev.len() - 1 - i;
                assert(rev[i] == self.st().out_src(a as int)[j]);
                crate::model::lemma_filter_sub(self.st().edges(), crate::store::src_is(a as int));
            }
        }
        let mut out: Vec<i64> = Vec::new();
        let mut i: usize = 0;
        while i < eids.len()
            invariant
                self.st().ok(),
                eids@.map_values(crate::store::addr_int()) == rev.map_values(
                    crate::store::edge_eid(),
                ),
                forall|j: int|
                    0 <= j < rev.len() ==> self.st().edges().contains(#[trigger] rev[j])
                        && rev[j].src == a as int,
                self.st().neis(a as int) == rev.map_values(crate::store::edge_dst()),
                i <= eids@.len(),
                eids@.len() == rev.len(),
                out@.map_values(crate::store::addr_int()) == self.st().neis(a as int).take(i as int),
                forall|j: int|
                    0 <= j < out@.len() ==> #[trigger] out@[j] > 0 && self.st().has_node(
                        out@[j] as int,
                    ),
            decreases eids@.len() - i,
        {
            let eid = eids[i];
            proof {
                assert(eids@.map_values(crate::store::addr_int())[i as int] == eid as int);
                assert(rev.map_values(crate::store::edge_eid())[i as int] == rev[i as int].eid);
                assert(rev[i as int].eid < 0) by {
                    let k = choose|k: int|
                        0 <= k < self.st().edges().len() && self.st().edges()[k] == rev[i as int];
                    assert(self.st().edges()[k].eid < 0);
                }
            }
            let ends = match self.store.edge_ends(eid) {
                Ok(Some(p)) => p,
                Ok(None) => {
                    proof {
                        let k = choose|k: int|
                            0 <= k < self.st().edges().len() && self.st().edges()[k] == rev[i as int];
                        assert(self.st().edges()[k].eid == eid as int);
                    }
                    return Err(Error::Internal("edge vanished during listing".to_owned()));
                },
                Err(f) => {
                    return Err(Error::Internal(f.message));
                },
            };
            proof {
                let k = choose|k: int|
                    0 <= k < self.st().edges().len() && self.st().edges()[k] == rev[i as int];
                let j = choose|j: int|
                    0 <= j < self.st().edges().len() && (#[trigger] self.st().edges()[j]).eid
                        == eid as int && self.st().edges()[j].src == ends.0 as int
                        && self.st().edges()[j].dst == ends.1 as int;
                assert(self.st().edges()[k].eid == eid as int);
                assert(j == k);
                assert(ends.1 as int == rev[i as int].dst);
                assert(self.st().has_node(rev[i as int].dst));
                assert(self.st().neis(a as int)[i as int] == rev[i as int].dst);
            }
            let ghost prev = out@;
            out.push(ends.1);
            proof {
                assert(out@ == prev.push(ends.1));
                assert(self.st().neis(a as int) == rev.map_values(crate::store::edge_dst()));
                assert(self.st().neis(a as int).len() == rev.len());
                assert(prev.map_values(crate::store::addr_int()).len() == prev.len());
                assert(prev.len() == i as int);
                assert(i as int + 1 <= rev.len());
                assert forall|j: int| 0 <= j < out@.len() implies out@.map_values(
                    crate::store::addr_int(),
                )[j] == self.st().neis(a as int).take(i as int + 1)[j] by {
                    if j < prev.len() {
                        assert(out@[j] == prev[j]);
                        assert(prev.map_values(crate::store::addr_int())[j] == self.st().neis(
                            a as int,
                        ).take(i as int)[j]);
                    } else {
                        assert(out@[j] == ends.1);
                    }
                }
                assert(out@.map_values(crate::store::addr_int()) =~= self.st().neis(
                    a as int,
                ).take(i as int + 1));
            }
            i = i + 1;
        }
        proof {
            assert(self.st().neis(a as int).take(out@.len() as int) =~= self.st().neis(a as int));
        }
        Ok(out)
    }

    /// The out-neighbours of `a` that carry entity kind `k`, newest first.

    #[verifier::spinoff_prover]
       pub(crate) fn neighbors_with_kind(&self, a: i64, k: u64) -> (r: Result<Vec<i64>, Error>)
        requires
            self.st().ok(),
            a > 0,
            self.st().has_node(a as int),
        ensures
            r matches Ok(v) ==> v@.map_values(crate::store::addr_int()) == self.st().neis(
                a as int,
            ).filter(kind_pred(self.st(), k)) && (forall|i: int|
                0 <= i < v@.len() ==> #[trigger] v@[i] > 0 && self.st().has_node(v@[i] as int)),
            r matches Err(e) ==> e is Internal,
    {
        let all = self.out_neighbors(a)?;
        let ghost ns = self.st().neis(a as int);
        let mut out: Vec<i64> = Vec::new();
        let mut i: usize = 0;
        while i < all.len()
            invariant
                self.st().ok(),
                all@.map_values(crate::store::addr_int()) == ns,
                forall|j: int|
                    0 <= j < all@.len() ==> #[trigger] all@[j] > 0 && self.st().has_node(
                        all@[j] as int,
                    ),
                i <= all@.len(),
                out@.map_values(crate::store::addr_int()) == ns.take(i as int).filter(
                    kind_pred(self.st(), k),
                ),
                forall|j: int|
                    0 <= j < out@.len() ==> #[trigger] out@[j] > 0 && self.st().has_node(
                        out@[j] as int,
                    ),
            decreases all@.len() - i,
        {
            let b = all[i];
            proof {
                assert(all@.map_values(crate::store::addr_int())[i as int] == b as int);
                assert(ns.take(i as int + 1) =~= ns.take(i as int).push(ns[i as int]));
                crate::model::lemma_filter_push(ns.take(i as int), kind_pred(self.st(), k), b as int);
            }
            let keep = match self.store.get_value(b, "kind") {
                GetValue::Found(FieldValue::U64(code)) => code == k,
                GetValue::Found(_) => false,
                GetValue::Missing => false,
                GetValue::Fault(m) => {
                    return Err(Error::Internal(m));
                },
            };
            if keep {
                out.push(b);
                proof {
                    assert(out@.map_values(crate::store::addr_int()) =~= ns.take(
                        i as int,
                    ).filter(kind_pred(self.st(), k)).push(b as int));
                }
            }
            i = i + 1;
        }
        proof {
            assert(ns.take(all@.len() as int) =~= ns);
        }
        Ok(out)
    }
}

/// Two repositories over the same roots and edges in which only the fields of
/// node `x` changed, and its kind did not: every listing is the same.

#[verifier::spinoff_prover]
pub proof fn lemma_field_frame(r1: Repository, r2: Repository, x: int)
    requires
        r2.roots == r1.roots,
        r2.st().edges() == r1.st().edges(),
        forall|b: int, k: Seq<char>| b != x ==> r2.st().field(b, k) == r1.st().field(b, k),
        r2.st().field(x, "kind"@) == r1.st().field(x, "kind"@),
    ensures
        forall|a: int, k: u64| r2.is_kind(a, k) == r1.is_kind(a, k),
        r2.games_v() == r1.games_v(),
        r2.tools_v() == r1.tools_v(),
        r2.actives_v() == r1.actives_v(),
        r2.active_ps_v() == r1.active_ps_v(),
        forall|g: int| r2.profiles_v(g) == r1.profiles_v(g),
        forall|g: int| r2.mods_v(g) == r1.mods_v(g),
        forall|a: int| r2.entry_neis(a) == r1.entry_neis(a),
        forall|a: int| r2.mod_neis(a) == r1.mod_neis(a),
        forall|a: int| r2.game_in_neis(a) == r1.game_in_neis(a),
{
    assert forall|a: int, k: u64| r2.is_kind(a, k) == r1.is_kind(a, k) by {
        if a == x {
            assert(r2.st().field(a, "kind"@) == r1.st().field(a, "kind"@));
        }
    }
    assert forall|a: int| r2.st().neis(a) == r1.st().neis(a) && r2.st().in_neis(a)
        == r1.st().in_neis(a) by {}
    assert forall|g: int| r2.profiles_v(g) == r1.profiles_v(g) by {
        crate::model::lemma_filter_congruence(
            r1.st().neis(g),
            kind_pred(r2.st(), KIND_PROFILE),
            kind_pred(r1.st(), KIND_PROFILE),
        );
    }
    assert forall|g: int| r2.mods_v(g) == r1.mods_v(g) by {
        crate::model::lemma_filter_congruence(
            r1.st().neis(g),
            kind_pred(r2.st(), KIND_MOD),
            kind_pred(r1.st(), KIND_MOD),
        );
    }
    assert forall|a: int| r2.entry_neis(a) == r1.entry_neis(a) by {
        crate::model::lemma_filter_congruence(
            r1.st().neis(a),
            kind_pred(r2.st(), KIND_ENTRY),
            kind_pred(r1.st(), KIND_ENTRY),
        );
    }
    assert forall|a: int| r2.mod_neis(a) == r1.mod_neis(a) by {
        crate::model::lemma_filter_congruence(
            r1.st().neis(a),
            kind_pred(r2.st(), KIND_MOD),
            kind_pred(r1.st(), KIND_MOD),
        );
    }
    assert forall|a: int| r2.game_in_neis(a) == r1.game_in_neis(a) by {
        crate::model::lemma_filter_congruence(
            r1.st().in_neis(a),
            kind_pred(r2.st(), KIND_GAME),
            kind_pred(r1.st(), KIND_GAME),
        );
    }
}

impl Repository {
    /// Create a fresh, still unlinked entity node carrying a newly allocated
    /// uid and the given kind code. No edge touches the node yet, so no
    /// listing shows it.

    #[verifier::spinoff_prover]
       pub(crate) fn create_entity(&mut self, kind: u64) -> (r: Result<(i64, u64), Error>)
        requires
            old(self).wf_state(),
        ensures
            final(self).wf_state(),
            final(self).roots == old(self).roots,
            final(self).lib_dir == old(self).lib_dir,
            final(self).fs == old(self).fs,
            final(self).poisoned == old(self).poisoned,
            final(self).chains == old(self).chains,
            final(self).st().edges() == old(self).st().edges(),
            final(self).st().aliases() == old(self).st().aliases(),
            final(self).games_v() == old(self).games_v(),
            final(self).tools_v() == old(self).tools_v(),
            final(self).actives_v() == old(self).actives_v(),
            final(self).active_ps_v() == old(self).active_ps_v(),
            forall|g: int| final(self).profiles_v(g) == old(self).profiles_v(g),
            forall|g: int| final(self).mods_v(g) == old(self).mods_v(g),
            forall|a: int| final(self).entry_neis(a) == old(self).entry_neis(a),
            forall|a: int| final(self).mod_neis(a) == old(self).mod_neis(a),
            forall|a: int| final(self).game_in_neis(a) == old(self).game_in_neis(a),
            r matches Ok(p) ==> {
                &&& p.0 > 0
                &&& !old(self).st().has_node(p.0 as int)
                &&& final(self).st().has_node(p.0 as int)
                &&& final(self).st().field(p.0 as int, "uid"@) == Some(Val::U64(p.1))
                &&& final(self).st().field(p.0 as int, "kind"@) == Some(Val::U64(kind))
                &&& (forall|k: Seq<char>|
                    k != "uid"@ && k != "kind"@ ==> final(self).st().field(p.0 as int, k) is None)
                &&& (forall|i: int|
                    0 <= i < final(self).st().edges().len() ==> (#[trigger] final(self).st().edges()[i]).dst != p.0 as int && final(self).st().edges()[i].src != p.0 as int)
                &&& p.0 as int != old(self).roots.games as int
                &&& p.0 as int != old(self).roots.tools as int
                &&& p.0 as int != old(self).roots.active_game as int
                &&& p.0 as int != old(self).roots.active_profile as int
                &&& p.0 as int != old(self).roots.version as int
                &&& p.0 as int != old(self).roots.counter as int
                &&& (forall|b: int, k: Seq<char>|
                    b != p.0 as int && b != old(self).roots.counter as int ==> final(self).st().field(b, k) == old(self).st().field(b, k))
                &&& (forall|b: int|
                    b != p.0 as int ==> (final(self).st().has_node(b) <==> old(self).st().has_node(
                        b,
                    )))
                &&& (forall|k: Seq<char>|
                    k != "next_uid"@ ==> final(self).st().field(old(self).roots.counter as int, k)
                        == old(self).st().field(old(self).roots.counter as int, k))
            },
            r matches Err(e) ==> e is Internal,
    {
        let uid = match self.alloc_uid() {
            Ok(u) => u,
            Err(e) => {
                proof {
                    lemma_field_frame(*old(self), *self, old(self).roots.counter as int);
                }
                return Err(e);
            },
        };
        proof {
            lemma_field_frame(*old(self), *self, old(self).roots.counter as int);
        }
        let ghost r0 = *self;
        let addr = match self.store.new_node() {
            Ok(a) => a,
            Err(f) => {
                return Err(Error::Internal(f.message));
            },
        };
        proof {
            lemma_field_keys();
            assert forall|i: int|
                0 <= i < self.st().edges().len() implies (#[trigger] self.st().edges()[i]).dst
                != addr as int && self.st().edges()[i].src != addr as int by {
                assert(r0.st().has_node(self.st().edges()[i].dst));
                assert(r0.st().has_node(self.st().edges()[i].src));
            }
            lemma_wf_frame_unlinked(r0, *self, addr as int);
        }
        let ghost r1 = *self;
        match self.store.set_value(addr, "uid", &FieldValue::U64(uid)) {
            Ok(()) => (),
            Err(f) => {
                proof {
                    lemma_wf_frame_unlinked(r1, *self, addr as int);
                }
                return Err(Error::Internal(f.message));
            },
        }
        proof {
            lemma_wf_frame_unlinked(r1, *self, addr as int);
        }
        let ghost r2 = *self;
        match self.store.set_value(addr, "kind", &FieldValue::U64(kind)) {
            Ok(()) => (),
            Err(f) => {
                proof {
                    lemma_wf_frame_unlinked(r2, *self, addr as int);
                }
                return Err(Error::Internal(f.message));
            },
        }
        proof {
            lemma_wf_frame_unlinked(r2, *self, addr as int);
        }
        Ok((addr, uid))
    }

    /// Set one non-kind field of a node that no edge touches yet.

    #[verifier::spinoff_prover]
       pub(crate) fn set_unlinked_field(&mut self, addr: i64, key: &str, value: &FieldValue) -> (r:
        Result<(), Error>)
        requires
            old(self).wf_state(),
            addr > 0,
            old(self).st().has_node(addr as int),
            key@ != "kind"@,
            forall|i: int|
                0 <= i < old(self).st().edges().len() ==> (#[trigger] old(self).st().edges()[i]).dst != addr as int && old(self).st().edges()[i].src
                    != addr as int,
            addr as int != old(self).roots.games as int,
            addr as int != old(self).roots.tools as int,
            addr as int != old(self).roots.active_game as int,
            addr as int != old(self).roots.active_profile as int,
            addr as int != old(self).roots.version as int,
            addr as int != old(self).roots.counter as int,
        ensures
            final(self).wf_state(),
            final(self).roots == old(self).roots,
            final(self).lib_dir == old(self).lib_dir,
            final(self).fs == old(self).fs,
            final(self).poisoned == old(self).poisoned,
            final(self).chains == old(self).chains,
            final(self).st().edges() == old(self).st().edges(),
            final(self).st().aliases() == old(self).st().aliases(),
            final(self).games_v() == old(self).games_v(),
            final(self).tools_v() == old(self).tools_v(),
            final(self).actives_v() == old(self).actives_v(),
            final(self).active_ps_v() == old(self).active_ps_v(),
            forall|g: int| final(self).profiles_v(g) == old(self).profiles_v(g),
            forall|g: int| final(self).mods_v(g) == old(self).mods_v(g),
            forall|a: int| final(self).entry_neis(a) == old(self).entry_neis(a),
            forall|a: int| final(self).mod_neis(a) == old(self).mod_neis(a),
            forall|a: int| final(self).game_in_neis(a) == old(self).game_in_neis(a),
            forall|b: int|
                (final(self).st().has_node(b) <==> old(self).st().has_node(b)),
            r is Ok ==> final(self).st().nodes() == old(self).st().nodes().insert(
                addr as int,
                old(self).st().nodes()[addr as int].insert(key@, value@),
            ),
            r is Err ==> final(self).st().nodes() == old(self).st().nodes(),
            r matches Err(e) ==> e is Internal,
    {
        let ghost r0 = *self;
        let res = self.store.set_value(addr, key, value);
        proof {
            lemma_wf_frame_unlinked(r0, *self, addr as int);
        }
        match res {
            Ok(()) => Ok(()),
            Err(f) => Err(Error::Internal(f.message)),
        }
    }
}

/// Well-formedness only reads the store, the roots and the ghost chains:
/// changing the other fields (the effect queue, the library directory)
/// preserves it.

#[verifier::spinoff_prover]
pub proof fn lemma_wf_same_store(r1: Repository, r2: Repository)
    requires
        r1.wf_state(),
        r2.store == r1.store,
        r2.roots == r1.roots,
        r2.chains == r1.chains,
    ensures
        r2.wf_state(),
{
    assert forall|p: int| r2.is_profile(p) <==> r1.is_profile(p) by {
        if r1.is_profile(p) {
            let gi = choose|gi: int|
                0 <= gi < r1.games_v().len() && r1.profiles_v(#[trigger] r1.games_v()[gi]).contains(
                    p,
                );
            assert(r2.profiles_v(r2.games_v()[gi]).contains(p));
        }
        if r2.is_profile(p) {
            let gi = choose|gi: int|
                0 <= gi < r2.games_v().len() && r2.profiles_v(#[trigger] r2.games_v()[gi]).contains(
                    p,
                );
            assert(r1.profiles_v(r1.games_v()[gi]).contains(p));
        }
    }
    assert(r2.wf_state());
}

/// Changing one field of node `x` while keeping its kind and its entity
/// shape, the node set, the edges and the roots preserves well-formedness.

#[verifier::spinoff_prover]
pub proof fn lemma_wf_entity_field(r1: Repository, r2: Repository, x: int)
    requires
        r1.wf_state(),
        r2.roots == r1.roots,
        r2.chains == r1.chains,
        r2.st().ok(),
        r2.st().edges() == r1.st().edges(),
        forall|b: int| r2.st().has_node(b) <==> r1.st().has_node(b),
        forall|b: int, k: Seq<char>| b != x ==> r2.st().field(b, k) == r1.st().field(b, k),
        r2.st().field(x, "kind"@) == r1.st().field(x, "kind"@),
        r1.game_ok(x) ==> r2.game_ok(x),
        r1.profile_ok(x) ==> r2.profile_ok(x),
        r1.mod_ok(x) ==> r2.mod_ok(x),
        r1.entry_ok(x) ==> r2.entry_ok(x),
        r1.tool_ok(x) ==> r2.tool_ok(x),
        r2.counter_of() matches Some(v) && v is U64,
    ensures
        r2.wf_state(),
        r2.games_v() == r1.games_v(),
        r2.tools_v() == r1.tools_v(),
        r2.actives_v() == r1.actives_v(),
        r2.active_ps_v() == r1.active_ps_v(),
        forall|g: int| r2.profiles_v(g) == r1.profiles_v(g),
        forall|g: int| r2.mods_v(g) == r1.mods_v(g),
        forall|a: int| r2.entry_neis(a) == r1.entry_neis(a),
        forall|a: int| r2.mod_neis(a) == r1.mod_neis(a),
        forall|a: int| r2.game_in_neis(a) == r1.game_in_neis(a),
{
    lemma_field_frame(r1, r2, x);
    assert forall|a: int, k: u64| r1.is_kind(a, k) && a != x implies (forall|key: Seq<char>|
        r2.st().field(a, key) == r1.st().field(a, key)) by {}
    assert(r2.roots_ok());
    assert forall|i: int| 0 <= i < r2.games_v().len() implies r2.game_ok(
        #[trigger] r2.games_v()[i],
    ) by {
        assert(r1.game_ok(r1.games_v()[i]));
    }
    assert(r2.games_ok());
    assert(r2.actives_ok());
    assert forall|i: int| 0 <= i < r2.games_v().len() implies r2.game_children_ok(
        #[trigger] r2.games_v()[i],
    ) by {
        let g = r2.games_v()[i];
        assert(r1.game_children_ok(g));
        assert(r2.profiles_v(g) == r1.profiles_v(g));
        assert(r2.mods_v(g) == r1.mods_v(g));
        assert forall|j: int| 0 <= j < r2.profiles_v(g).len() implies r2.profile_ok(
            #[trigger] r2.profiles_v(g)[j],
        ) by {
            assert(r1.profile_ok(r1.profiles_v(g)[j]));
        }
        assert forall|j: int| 0 <= j < r2.mods_v(g).len() implies r2.mod_ok(
            #[trigger] r2.mods_v(g)[j],
        ) by {
            assert(r1.mod_ok(r1.mods_v(g)[j]));
        }
    }
    assert(r2.children_ok());
    assert forall|gi: int| 0 <= gi < r2.games_v().len() implies r2.active_ps_v().filter(
        |p: int| r2.profiles_v(#[trigger] r2.games_v()[gi]).contains(p),
    ).len() <= 1 by {
        let g = r2.games_v()[gi];
        crate::model::lemma_filter_congruence(
            r1.active_ps_v(),
            |p: int| r2.profiles_v(g).contains(p),
            |p: int| r1.profiles_v(g).contains(p),
        );
    }
    assert forall|p: int| r2.is_profile(p) <==> r1.is_profile(p) by {
        if r1.is_profile(p) {
            let gi = choose|gi: int|
                0 <= gi < r1.games_v().len() && r1.profiles_v(#[trigger] r1.games_v()[gi]).contains(
                    p,
                );
            assert(r2.profiles_v(r2.games_v()[gi]).contains(p));
        }
        if r2.is_profile(p) {
            let gi = choose|gi: int|
                0 <= gi < r2.games_v().len() && r2.profiles_v(#[trigger] r2.games_v()[gi]).contains(
                    p,
                );
            assert(r1.profiles_v(r1.games_v()[gi]).contains(p));
        }
    }
    assert(r2.active_ps_ok());
    assert forall|p: int| #[trigger] r2.chains@.dom().contains(p) implies r2.chain_ok(
        p,
        r2.chains@[p],
    ) by {
        assert(r1.chain_ok(p, r1.chains@[p]));
        let c = r2.chains@[p];
        assert forall|i: int| 0 <= i < c.len() implies r2.entry_ok(#[trigger] c[i]) && (
        r2.mod_neis(c[i])).len() <= 1 && (r2.mod_neis(c[i]).len() == 1 ==> r2.mod_ok(
            r2.mod_neis(c[i])[0],
        )) by {
            assert(r1.entry_ok(c[i]));
            assert(r2.mod_neis(c[i]) == r1.mod_neis(c[i]));
            if r1.mod_neis(c[i]).len() == 1 {
                assert(r1.mod_ok(r1.mod_neis(c[i])[0]));
            }
        }
    }
    assert(r2.chains_ok());
    assert forall|i: int| 0 <= i < r2.tools_v().len() implies r2.tool_ok(
        #[trigger] r2.tools_v()[i],
    ) by {
        assert(r1.tool_ok(r1.tools_v()[i]));
    }
    assert(r2.counter_ok());
    assert(r2.wf_state());
}

impl Repository {
    /// All in-neighbour addresses of node `a`, newest edge first.

    #[verifier::spinoff_prover]
       pub(crate) fn in_neighbors(&self, a: i64) -> (r: Result<Vec<i64>, Error>)
        requires
            self.st().ok(),
            a > 0,
            self.st().has_node(a as int),
        ensures
            r matches Ok(v) ==> v@.map_values(crate::store::addr_int()) == self.st().in_neis(
                a as int,
            ) && (forall|i: int|
                0 <= i < v@.len() ==> #[trigger] v@[i] > 0 && self.st().has_node(v@[i] as int)),
            r matches Err(e) ==> e is Internal,
    {
        let eids = match self.store.in_edge_ids(a) {
            Ok(v) => v,
            Err(f) => {
                return Err(Error::Internal(f.message));
            },
        };
        let ghost rev = self.st().in_dst(a as int).reverse();
        proof {
            assert(rev.len() == self.st().in_dst(a as int).len());
            assert(eids@.map_values(crate::store::addr_int()).len() == eids@.len());
            assert(rev.map_values(crate::store::edge_eid()).len() == rev.len());
            assert forall|i: int| 0 <= i < rev.len() implies self.st().edges().contains(
                #[trigger] rev[i],
            ) && rev[i].dst == a as int by {
                let j = rev.len() - 1 - i;
                assert(rev[i] == self.st().in_dst(a as int)[j]);
                crate::model::lemma_filter_sub(self.st().edges(), crate::store::dst_is(a as int));
            }
        }
        let mut out: Vec<i64> = Vec::new();
        let mut i: usize = 0;
        while i < eids.len()
            invariant
                self.st().ok(),
                eids@.map_values(crate::store::addr_int()) == rev.map_values(
                    crate::store::edge_eid(),
                ),
                forall|j: int|
                    0 <= j < rev.len() ==> self.st().edges().contains(#[trigger] rev[j])
                        && rev[j].dst == a as int,
                self.st().in_neis(a as int) == rev.map_values(crate::store::edge_src()),
                i <= eids@.len(),
                eids@.len() == rev.len(),
                out@.map_values(crate::store::addr_int()) == self.st().in_neis(a as int).take(
                    i as int,
                ),
                forall|j: int|
                    0 <= j < out@.len() ==> #[trigger] out@[j] > 0 && self.st().has_node(
                        out@[j] as int,
                    ),
            decreases eids@.len() - i,
        {
            let eid = eids[i];
            proof {
                assert(eids@.map_values(crate::store::addr_int())[i as int] == eid as int);
                assert(rev.map_values(crate::store::edge_eid())[i as int] == rev[i as int].eid);
                assert(rev[i as int].eid < 0) by {
                    let k = choose|k: int|
                        0 <= k < self.st().edges().len() && self.st().edges()[k] == rev[i as int];
                    assert(self.st().edges()[k].eid < 0);
                }
            }
            let ends = match self.store.edge_ends(eid) {
                Ok(Some(p)) => p,
                Ok(None) => {
                    proof {
                        let k = choose|k: int|
                            0 <= k < self.st().edges().len() && self.st().edges()[k] == rev[i as int];
                        assert(self.st().edges()[k].eid == eid as int);
                    }
                    return Err(Error::Internal("edge vanished during listing".to_owned()));
                },
                Err(f) => {
                    return Err(Error::Internal(f.message));
                },
            };
            proof {
                let k = choose|k: int|
                    0 <= k < self.st().edges().len() && self.st().edges()[k] == rev[i as int];
                let j = choose|j: int|
                    0 <= j < self.st().edges().len() && (#[trigger] self.st().edges()[j]).eid
                        == eid as int && self.st().edges()[j].src == ends.0 as int
                        && self.st().edges()[j].dst == ends.1 as int;
                assert(self.st().edges()[k].eid == eid as int);
                assert(j == k);
                assert(ends.0 as int == rev[i as int].src);
                assert(self.st().has_node(rev[i as int].src));
                assert(self.st().in_neis(a as int)[i as int] == rev[i as int].src);
            }
            let ghost prev = out@;
            out.push(ends.0);
            proof {
                assert(out@ == prev.push(ends.0));
                assert(self.st().in_neis(a as int) == rev.map_values(crate::store::edge_src()));
                assert(self.st().in_neis(a as int).len() == rev.len());
                assert(prev.map_values(crate::store::addr_int()).len() == prev.len());
                assert(prev.len() == i as int);
                assert(i as int + 1 <= rev.len());
                assert forall|j: int| 0 <= j < out@.len() implies out@.map_values(
                    crate::store::addr_int(),
                )[j] == self.st().in_neis(a as int).take(i as int + 1)[j] by {
                    if j < prev.len() {
                        assert(out@[j] == prev[j]);
                        assert(prev.map_values(crate::store::addr_int())[j] == self.st().in_neis(
                            a as int,
                        ).take(i as int)[j]);
                    } else {
                        assert(out@[j] == ends.0);
                    }
                }
                assert(out@.map_values(crate::store::addr_int()) =~= self.st().in_neis(
                    a as int,
                ).take(i as int + 1));
            }
            i = i + 1;
        }
        proof {
            assert(self.st().in_neis(a as int).take(out@.len() as int) =~= self.st().in_neis(
                a as int,
            ));
        }
        Ok(out)
    }

    /// The first in-neighbour of `a` that is a game: its parent under `wf`.

    #[verifier::spinoff_prover]
       pub(crate) fn parent_game_addr(&self, a: i64) -> (r: Result<i64, Error>)
        requires
            self.st().ok(),
            a > 0,
            self.st().has_node(a as int),
        ensures
            r matches Ok(g) ==> g > 0 && self.st().has_node(g as int) && self.game_in_neis(
                a as int,
            ).len() > 0 && g as int == self.game_in_neis(a as int)[0],
            r matches Err(e) ==> e is Internal,
    {
        let ins = self.in_neighbors(a)?;
        let ghost ns = self.st().in_neis(a as int);
        let mut i: usize = 0;
        while i < ins.len()
            invariant
                self.st().ok(),
                ins@.map_values(crate::store::addr_int()) == ns,
                forall|j: int|
                    0 <= j < ins@.len() ==> #[trigger] ins@[j] > 0 && self.st().has_node(
                        ins@[j] as int,
                    ),
                i <= ins@.len(),
                ns.take(i as int).filter(kind_pred(self.st(), KIND_GAME)) == Seq::<int>::empty(),
                self.game_in_neis(a as int) == ns.filter(kind_pred(self.st(), KIND_GAME)),
            decreases ins@.len() - i,
        {
            let b = ins[i];
            proof {
                assert(ins@.map_values(crate::store::addr_int())[i as int] == b as int);
                assert(ns.take(i as int + 1) =~= ns.take(i as int).push(ns[i as int]));
                crate::model::lemma_filter_push(
                    ns.take(i as int),
                    kind_pred(self.st(), KIND_GAME),
                    b as int,
                );
            }
            let keep = match self.store.get_value(b, "kind") {
                GetValue::Found(FieldValue::U64(code)) => code == KIND_GAME,
                GetValue::Found(_) => false,
                GetValue::Missing => false,
                GetValue::Fault(m) => {
                    return Err(Error::Internal(m));
                },
            };
            if keep {
                proof {
                    crate::model::lemma_filter_sub_take(ns, i as int, kind_pred(self.st(), KIND_GAME), b as int);
                }
                return Ok(b);
            }
            i = i + 1;
        }
        proof {
            assert(ns.take(ins@.len() as int) =~= ns);
        }
        Err(Error::Internal("entity has no parent game".to_owned()))
    }
}

/// How the ghost chain map moves across a node removal: untouched (the node
/// is no profile and sits in no chain), dropped (the node is a profile whose
/// chain is already empty), or beheaded (the node is the first entry of the
/// named profile's chain, whose remaining entries become unreachable).
pub enum ChainsMode {
    Untouched,
    Dropped,
    Beheaded(int),
    Truncated(int, int),
}

/// Removing one node `x` that is not a root, whose chain role is settled (it
/// is no chain member; as a profile its own chain is already empty), and
/// that, as a game, has no children left: every listing just loses `x` and
/// the state stays well-formed.

#[verifier::rlimit(50)]
#[verifier::spinoff_prover]
pub proof fn lemma_wf_remove_node(r1: Repository, r2: Repository, x: int, mode: ChainsMode)
    requires
        r1.wf_state(),
        r2.roots == r1.roots,
        r2.st().ok(),
        r2.st().nodes() == r1.st().nodes().remove(x),
        r2.st().edges() == r1.st().edges().filter(crate::store::untouched_by(x)),
        x != r1.roots.games as int,
        x != r1.roots.tools as int,
        x != r1.roots.active_game as int,
        x != r1.roots.active_profile as int,
        x != r1.roots.version as int,
        x != r1.roots.counter as int,
        r1.is_kind(x, KIND_GAME) ==> r1.profiles_v(x) == Seq::<int>::empty() && r1.mods_v(x)
            == Seq::<int>::empty(),
        match mode {
            ChainsMode::Untouched => r2.chains == r1.chains && !r1.chains@.dom().contains(x) && (
            forall|p: int| #[trigger] r1.chains@.dom().contains(p) ==> !r1.chains@[p].contains(x)),
            ChainsMode::Dropped => r2.chains@ == r1.chains@.remove(x) && (
            r1.chains@.dom().contains(x) ==> r1.chains@[x] == Seq::<int>::empty()) && (forall|
                p: int,
            | #[trigger] r1.chains@.dom().contains(p) ==> !r1.chains@[p].contains(x)),
            ChainsMode::Beheaded(p0) => r1.chains@.dom().contains(p0) && r1.chains@[p0].len() > 0
                && x == r1.chains@[p0][0] && r2.chains@ == r1.chains@.insert(
                p0,
                Seq::<int>::empty(),
            ) && !r1.chains@.dom().contains(x),
            ChainsMode::Truncated(p0, i0) => r1.chains@.dom().contains(p0) && 0 <= i0
                < r1.chains@[p0].len() && x == r1.chains@[p0][i0] && r2.chains@
                == r1.chains@.insert(p0, r1.chains@[p0].take(i0)) && !r1.chains@.dom().contains(
                x,
            ),
        },
    ensures
        r2.wf_state(),
        r2.games_v() == r1.games_v().filter(crate::store::ne_addr(x)),
        r2.tools_v() == r1.tools_v().filter(crate::store::ne_addr(x)),
        r2.actives_v() == r1.actives_v().filter(crate::store::ne_addr(x)),
        r2.active_ps_v() == r1.active_ps_v().filter(crate::store::ne_addr(x)),
        forall|g: int|
            g != x ==> r2.profiles_v(g) == r1.profiles_v(g).filter(crate::store::ne_addr(x)),
        forall|g: int| g != x ==> r2.mods_v(g) == r1.mods_v(g).filter(crate::store::ne_addr(x)),
        forall|a: int|
            a != x ==> r2.entry_neis(a) == r1.entry_neis(a).filter(crate::store::ne_addr(x)),
        forall|a: int|
            a != x ==> r2.mod_neis(a) == r1.mod_neis(a).filter(crate::store::ne_addr(x)),
        forall|a: int|
            a != x ==> r2.game_in_neis(a) == r1.game_in_neis(a).filter(crate::store::ne_addr(x)),
        !r2.st().has_node(x),
        r2.st().neis(x) == Seq::<int>::empty(),
        r2.st().in_neis(x) == Seq::<int>::empty(),
{
    let ne = crate::store::ne_addr(x);
    crate::model::lemma_remove_node_edges(r1.st(), r2.st(), x);
    // Every kind-based listing of a surviving node loses exactly `x`.
    assert forall|sq: Seq<int>, k: u64|
        (forall|j: int| 0 <= j < sq.len() ==> #[trigger] sq[j] != x) implies #[trigger] sq.filter(
        kind_pred(r2.st(), k),
    ) == sq.filter(kind_pred(r1.st(), k)) by {
        assert forall|j: int| 0 <= j < sq.len() implies (kind_pred(r2.st(), k)(#[trigger] sq[j])
            <==> kind_pred(r1.st(), k)(sq[j])) by {
            assert(sq[j] != x);
        }
        crate::model::lemma_filter_congruence(sq, kind_pred(r2.st(), k), kind_pred(r1.st(), k));
    }
    assert forall|a: int, k: u64| a != x implies #[trigger] r2.st().neis(a).filter(
        kind_pred(r2.st(), k),
    ) == r1.st().neis(a).filter(kind_pred(r1.st(), k)).filter(ne) by {
        assert(r2.st().neis(a) == r1.st().neis(a).filter(ne));
        assert forall|j: int| 0 <= j < r2.st().neis(a).len() implies #[trigger] r2.st().neis(
            a,
        )[j] != x by {
            crate::model::lemma_filter_sub(r1.st().neis(a), ne);
        }
        crate::model::lemma_filter_comm(r1.st().neis(a), ne, kind_pred(r1.st(), k));
    }
    assert forall|a: int, k: u64| a != x implies #[trigger] r2.st().in_neis(a).filter(
        kind_pred(r2.st(), k),
    ) == r1.st().in_neis(a).filter(kind_pred(r1.st(), k)).filter(ne) by {
        assert(r2.st().in_neis(a) == r1.st().in_neis(a).filter(ne));
        assert forall|j: int| 0 <= j < r2.st().in_neis(a).len() implies #[trigger] r2.st().in_neis(
            a,
        )[j] != x by {
            crate::model::lemma_filter_sub(r1.st().in_neis(a), ne);
        }
        crate::model::lemma_filter_comm(r1.st().in_neis(a), ne, kind_pred(r1.st(), k));
    }
    assert(r2.games_v() == r1.games_v().filter(ne));
    assert(r2.tools_v() == r1.tools_v().filter(ne));
    assert(r2.actives_v() == r1.actives_v().filter(ne));
    assert(r2.active_ps_v() == r1.active_ps_v().filter(ne));
    // Membership facts used throughout.
    assert forall|sq: Seq<int>, y: int| true implies (#[trigger] sq.filter(ne).contains(y) <==> (
    sq.contains(y) && y != x)) by {
        crate::model::lemma_filter_mem(sq, ne, y);
    }
    assert(r2.roots_ok());
    // Games.
    assert forall|i: int| 0 <= i < r2.games_v().len() implies r2.game_ok(
        #[trigger] r2.games_v()[i],
    ) by {
        crate::model::lemma_filter_sub(r1.games_v(), ne);
        assert(r1.games_v().contains(r2.games_v()[i]));
        let j = choose|j: int| 0 <= j < r1.games_v().len() && r1.games_v()[j] == r2.games_v()[i];
        assert(r1.game_ok(r1.games_v()[j]));
        assert(r2.games_v()[i] != x);
    }
    assert(r2.games_v().no_duplicates()) by {
        crate::model::lemma_filter_nodup(r1.games_v(), ne);
    }
    assert(r2.games_ok());
    // Actives.
    assert(r2.actives_v().len() <= 1) by {
        r1.actives_v().lemma_filter_len(ne);
    }
    assert forall|i: int| 0 <= i < r2.actives_v().len() implies r2.games_v().contains(
        #[trigger] r2.actives_v()[i],
    ) by {
        crate::model::lemma_filter_sub(r1.actives_v(), ne);
        let a = r2.actives_v()[i];
        assert(r1.actives_v().contains(a));
        let j = choose|j: int| 0 <= j < r1.actives_v().len() && r1.actives_v()[j] == a;
        assert(r1.games_v().contains(a));
        assert(a != x);
        assert(r2.games_v().contains(a));
    }
    assert(r2.actives_ok());
    // Children of surviving games.
    assert forall|i: int| 0 <= i < r2.games_v().len() implies r2.game_children_ok(
        #[trigger] r2.games_v()[i],
    ) by {
        let g = r2.games_v()[i];
        assert(r2.games_v().contains(g));
        assert(r1.games_v().contains(g) && g != x);
        let gj = choose|gj: int| 0 <= gj < r1.games_v().len() && r1.games_v()[gj] == g;
        assert(r1.game_children_ok(g));
        assert(r2.profiles_v(g) == r1.profiles_v(g).filter(ne));
        assert(r2.mods_v(g) == r1.mods_v(g).filter(ne));
        crate::model::lemma_filter_nodup(r1.profiles_v(g), ne);
        crate::model::lemma_filter_nodup(r1.mods_v(g), ne);
        assert forall|j: int| 0 <= j < r2.profiles_v(g).len() implies r2.profile_ok(
            #[trigger] r2.profiles_v(g)[j],
        ) && r2.game_in_neis(r2.profiles_v(g)[j]) == seq![g] by {
            let p = r2.profiles_v(g)[j];
            crate::model::lemma_filter_sub(r1.profiles_v(g), ne);
            assert(r1.profiles_v(g).contains(p) && p != x);
            let k = choose|k: int| 0 <= k < r1.profiles_v(g).len() && r1.profiles_v(g)[k] == p;
            assert(r1.profile_ok(p));
            assert(r1.game_in_neis(p) == seq![g]);
            assert(r2.game_in_neis(p) == seq![g].filter(ne));
            assert(seq![g].filter(ne) =~= seq![g]) by {
                crate::model::lemma_filter_push(Seq::<int>::empty(), ne, g);
                assert(Seq::<int>::empty().push(g) =~= seq![g]);
                assert(Seq::<int>::empty().filter(ne) =~= Seq::<int>::empty());
                assert(Seq::<int>::empty().filter(ne).push(g) =~= seq![g]);
            }
        }
        assert forall|j: int| 0 <= j < r2.mods_v(g).len() implies r2.mod_ok(
            #[trigger] r2.mods_v(g)[j],
        ) && r2.game_in_neis(r2.mods_v(g)[j]) == seq![g] by {
            let m = r2.mods_v(g)[j];
            crate::model::lemma_filter_sub(r1.mods_v(g), ne);
            assert(r1.mods_v(g).contains(m) && m != x);
            let k = choose|k: int| 0 <= k < r1.mods_v(g).len() && r1.mods_v(g)[k] == m;
            assert(r1.mod_ok(m));
            assert(r1.game_in_neis(m) == seq![g]);
            assert(r2.game_in_neis(m) == seq![g].filter(ne));
            assert(seq![g].filter(ne) =~= seq![g]) by {
                crate::model::lemma_filter_push(Seq::<int>::empty(), ne, g);
                assert(Seq::<int>::empty().push(g) =~= seq![g]);
                assert(Seq::<int>::empty().filter(ne) =~= Seq::<int>::empty());
                assert(Seq::<int>::empty().filter(ne).push(g) =~= seq![g]);
            }
        }
    }
    assert forall|i: int, j: int, p: int|
        0 <= i < r2.games_v().len() && 0 <= j < r2.games_v().len() && i != j
            && #[trigger] r2.profiles_v(r2.games_v()[i]).contains(p) implies !(
    #[trigger] r2.profiles_v(r2.games_v()[j]).contains(p)) by {
        let gi = r2.games_v()[i];
        let gj = r2.games_v()[j];
        assert(r2.games_v().contains(gi) && r2.games_v().contains(gj));
        assert(r1.games_v().contains(gi) && r1.games_v().contains(gj));
        let ii = choose|ii: int| 0 <= ii < r1.games_v().len() && r1.games_v()[ii] == gi;
        let jj = choose|jj: int| 0 <= jj < r1.games_v().len() && r1.games_v()[jj] == gj;
        assert(gi != gj);
        assert(ii != jj);
        assert(r1.profiles_v(gi).contains(p));
        if r2.profiles_v(gj).contains(p) {
            assert(r1.profiles_v(gj).contains(p));
        }
    }
    assert forall|i: int, j: int, m: int|
        0 <= i < r2.games_v().len() && 0 <= j < r2.games_v().len() && i != j
            && #[trigger] r2.mods_v(r2.games_v()[i]).contains(m) implies !(#[trigger] r2.mods_v(
        r2.games_v()[j],
    ).contains(m)) by {
        let gi = r2.games_v()[i];
        let gj = r2.games_v()[j];
        assert(r2.games_v().contains(gi) && r2.games_v().contains(gj));
        assert(r1.games_v().contains(gi) && r1.games_v().contains(gj));
        let ii = choose|ii: int| 0 <= ii < r1.games_v().len() && r1.games_v()[ii] == gi;
        let jj = choose|jj: int| 0 <= jj < r1.games_v().len() && r1.games_v()[jj] == gj;
        assert(gi != gj);
        assert(ii != jj);
        assert(r1.mods_v(gi).contains(m));
        if r2.mods_v(gj).contains(m) {
            assert(r1.mods_v(gj).contains(m));
        }
    }
    assert(r2.children_ok());
    assert forall|p: int| #[trigger] r2.chains@.dom().contains(p) implies r1.chains@.dom().contains(
        p,
    ) && p != x by {
        match mode {
            ChainsMode::Untouched => {},
            ChainsMode::Dropped => {},
            ChainsMode::Beheaded(p0) => {},
            ChainsMode::Truncated(p0, i0) => {},
        }
        if p == x {
            assert(r1.chains@.dom().contains(x) || !r2.chains@.dom().contains(x));
        }
    }
    // Profile membership across the removal.
    assert forall|p: int| r2.is_profile(p) <==> (r1.is_profile(p) && p != x) by {
        if r2.is_profile(p) {
            let gi = choose|gi: int|
                0 <= gi < r2.games_v().len() && r2.profiles_v(#[trigger] r2.games_v()[gi]).contains(
                    p,
                );
            let g = r2.games_v()[gi];
            assert(r2.games_v().contains(g));
            assert(r1.games_v().contains(g));
            let jj = choose|jj: int| 0 <= jj < r1.games_v().len() && r1.games_v()[jj] == g;
            assert(r1.profiles_v(g).contains(p) && p != x);
            assert(r1.is_profile(p));
        }
        if r1.is_profile(p) && p != x {
            let gi = choose|gi: int|
                0 <= gi < r1.games_v().len() && r1.profiles_v(#[trigger] r1.games_v()[gi]).contains(
                    p,
                );
            let g = r1.games_v()[gi];
            if g == x {
                assert(r1.is_kind(x, KIND_GAME)) by {
                    assert(r1.game_ok(g));
                }
                assert(r1.profiles_v(x).contains(p));
                assert(false);
            } else {
                assert(r1.games_v().contains(g));
                assert(r2.games_v().contains(g));
                let k = choose|k: int| 0 <= k < r2.games_v().len() && r2.games_v()[k] == g;
                assert(r2.profiles_v(g).contains(p));
                assert(r2.is_profile(p));
            }
        }
    }
    // Per-game active-profile pointers.
    assert forall|i: int| 0 <= i < r2.active_ps_v().len() implies r2.is_profile(
        #[trigger] r2.active_ps_v()[i],
    ) by {
        crate::model::lemma_filter_sub(r1.active_ps_v(), ne);
        let p = r2.active_ps_v()[i];
        assert(r1.active_ps_v().contains(p) && p != x);
        let j = choose|j: int| 0 <= j < r1.active_ps_v().len() && r1.active_ps_v()[j] == p;
        assert(r1.is_profile(p));
    }
    assert(r2.active_ps_v().no_duplicates()) by {
        crate::model::lemma_filter_nodup(r1.active_ps_v(), ne);
    }
    assert forall|gi: int| 0 <= gi < r2.games_v().len() implies r2.active_ps_v().filter(
        |p: int| r2.profiles_v(#[trigger] r2.games_v()[gi]).contains(p),
    ).len() <= 1 by {
        let g = r2.games_v()[gi];
        assert(r2.games_v().contains(g));
        assert(r1.games_v().contains(g) && g != x);
        let gj = choose|gj: int| 0 <= gj < r1.games_v().len() && r1.games_v()[gj] == g;
        assert forall|j: int| 0 <= j < r2.active_ps_v().len() implies ((|p: int|
            r2.profiles_v(g).contains(p))(#[trigger] r2.active_ps_v()[j]) ==> (|p: int|
            r1.profiles_v(g).contains(p))(r2.active_ps_v()[j])) by {
            let p = r2.active_ps_v()[j];
            if r2.profiles_v(g).contains(p) {
                assert(r1.profiles_v(g).contains(p));
            }
        }
        crate::model::lemma_filter_imp_len(
            r2.active_ps_v(),
            |p: int| r2.profiles_v(g).contains(p),
            |p: int| r1.profiles_v(g).contains(p),
        );
        assert(r2.active_ps_v() == r1.active_ps_v().filter(ne));
        crate::model::lemma_filter_comm(r1.active_ps_v(), ne, |p: int| r1.profiles_v(g).contains(p));
        r1.active_ps_v().filter(|p: int| r1.profiles_v(g).contains(p)).lemma_filter_len(ne);
    }
    assert(r2.active_ps_ok());
    // Chains.
    assert forall|p: int| #[trigger] r1.chains@.dom().contains(p) && !(mode matches
        ChainsMode::Beheaded(p0) && p0 == p) && !(mode matches ChainsMode::Truncated(p1, i1) && p1
        == p) implies !r1.chains@[p].contains(x) by {
        match mode {
            ChainsMode::Untouched => {},
            ChainsMode::Dropped => {},
            ChainsMode::Beheaded(p0) => {
                assert(r1.chains@[p0][0] == x);
                assert(r1.chains@[p0].contains(x));
            },
            ChainsMode::Truncated(p0, i0) => {
                assert(r1.chains@[p0][i0] == x);
                assert(r1.chains@[p0].contains(x));
            },
        }
    }
    assert forall|p: int| #[trigger] r2.chains@.dom().contains(p) implies r2.chain_ok(
        p,
        r2.chains@[p],
    ) by {
        if mode matches ChainsMode::Beheaded(p0) && p0 == p {
            assert(r2.chains@[p] =~= Seq::<int>::empty());
            assert(r1.chain_ok(p, r1.chains@[p]));
            assert(r1.entry_neis(p) == seq![x]);
            assert(p != x);
            assert(r2.entry_neis(p) == r1.entry_neis(p).filter(ne));
            assert(r1.entry_neis(p).filter(ne) =~= Seq::<int>::empty()) by {
                assert forall|j: int| 0 <= j < r1.entry_neis(p).len() implies !ne(
                    #[trigger] r1.entry_neis(p)[j],
                ) by {}
                crate::model::lemma_filter_all(r1.entry_neis(p), ne);
            }
            assert(r2.entry_neis(p) == Seq::<int>::empty());
        } else if mode matches ChainsMode::Truncated(p0, i0) && p0 == p {
            assert(r1.chain_ok(p, r1.chains@[p]));
            let c1 = r1.chains@[p];
            let c = r2.chains@[p];
            let ghost ci0 = (choose|i0: int| mode == ChainsMode::Truncated(p, i0) && 0 <= i0 < c1.len() && c1[i0] == x && c == c1.take(i0));
            assert(c == c1.take(ci0));
            assert(forall|i: int| 0 <= i < c.len() ==> c[i] == c1[i]);
            assert(p != x) by {
                if p == x {
                    assert(r1.chains@.dom().contains(x));
                }
            }
            assert(c.no_duplicates()) by {
                assert forall|a2: int, b2: int|
                    0 <= a2 < c.len() && 0 <= b2 < c.len() && a2 != b2 implies c[a2] != c[b2] by {
                    assert(c1[a2] == c[a2] && c1[b2] == c[b2]);
                }
            }
            assert forall|i: int| 0 <= i < c.len() implies #[trigger] c[i] != x by {
                assert(c1[i] == c[i]);
                assert(c1[ci0] == x);
            }
            assert(r2.entry_neis(p) == r1.entry_neis(p).filter(ne));
            if c.len() == 0 {
                assert(r1.entry_neis(p) == seq![x]);
                assert forall|j: int| 0 <= j < r1.entry_neis(p).len() implies !ne(
                    #[trigger] r1.entry_neis(p)[j],
                ) by {}
                crate::model::lemma_filter_all(r1.entry_neis(p), ne);
                assert(r2.entry_neis(p) =~= Seq::<int>::empty());
            } else {
                assert(r1.entry_neis(p) == seq![c1[0]]);
                assert(c1[0] == c[0] && c[0] != x);
                assert forall|j: int| 0 <= j < r1.entry_neis(p).len() implies ne(
                    #[trigger] r1.entry_neis(p)[j],
                ) by {}
                crate::model::lemma_filter_all(r1.entry_neis(p), ne);
                assert(r2.entry_neis(p) == seq![c[0]]);
            }
            assert forall|i: int| 0 <= i < c.len() implies r2.entry_ok(#[trigger] c[i]) && (
            r2.mod_neis(c[i])).len() <= 1 && (r2.mod_neis(c[i]).len() == 1 ==> r2.mod_ok(
                r2.mod_neis(c[i])[0],
            )) && r2.entry_neis(c[i]) == (if i + 1 < c.len() {
                seq![c[i + 1]]
            } else {
                Seq::<int>::empty()
            }) by {
                assert(c1[i] == c[i]);
                assert(r1.entry_ok(c1[i]));
                assert(r2.entry_neis(c[i]) == r1.entry_neis(c1[i]).filter(ne));
                if i + 1 < c.len() {
                    assert(r1.entry_neis(c1[i]) == seq![c1[i + 1]]);
                    assert(c1[i + 1] == c[i + 1] && c[i + 1] != x);
                    assert forall|j: int| 0 <= j < r1.entry_neis(c1[i]).len() implies ne(
                        #[trigger] r1.entry_neis(c1[i])[j],
                    ) by {}
                    crate::model::lemma_filter_all(r1.entry_neis(c1[i]), ne);
                } else {
                    assert(i + 1 == c.len() && c.len() == ci0);
                    assert(r1.entry_neis(c1[i]) == seq![c1[i + 1]]);
                    assert(c1[i + 1] == x);
                    assert forall|j: int| 0 <= j < r1.entry_neis(c1[i]).len() implies !ne(
                        #[trigger] r1.entry_neis(c1[i])[j],
                    ) by {}
                    crate::model::lemma_filter_all(r1.entry_neis(c1[i]), ne);
                    assert(r2.entry_neis(c[i]) =~= Seq::<int>::empty());
                }
                assert(r2.mod_neis(c[i]) == r1.mod_neis(c1[i]).filter(ne));
                r1.mod_neis(c1[i]).lemma_filter_len(ne);
                if r2.mod_neis(c[i]).len() == 1 {
                    crate::model::lemma_filter_sub(r1.mod_neis(c1[i]), ne);
                    let m = r2.mod_neis(c[i])[0];
                    assert(r1.mod_neis(c1[i]).contains(m) && m != x);
                    let kx = choose|kx: int|
                        0 <= kx < r1.mod_neis(c1[i]).len() && r1.mod_neis(c1[i])[kx] == m;
                    assert(r1.mod_neis(c1[i]).len() == 1);
                    assert(r1.mod_ok(r1.mod_neis(c1[i])[0]));
                }
            }
            assert(r2.chain_ok(p, c));
        } else {
        assert(r1.chains@.dom().contains(p) && p != x);
        assert(r1.chain_ok(p, r1.chains@[p]));
        let c = r2.chains@[p];
        assert(c == r1.chains@[p]);
        assert(!c.contains(x));
        assert forall|i: int| 0 <= i < c.len() implies #[trigger] c[i] != x by {
            assert(c.contains(c[i]));
        }
        assert(r2.entry_neis(p) == r1.entry_neis(p).filter(ne));
        assert(r1.entry_neis(p).filter(ne) == r1.entry_neis(p)) by {
            if c.len() == 0 {
                assert(r1.entry_neis(p) =~= Seq::<int>::empty());
                crate::model::lemma_filter_all(r1.entry_neis(p), ne);
            } else {
                assert(r1.entry_neis(p) == seq![c[0]]);
                assert(c[0] != x);
                assert forall|j: int| 0 <= j < r1.entry_neis(p).len() implies ne(
                    #[trigger] r1.entry_neis(p)[j],
                ) by {}
                crate::model::lemma_filter_all(r1.entry_neis(p), ne);
            }
        }
        assert forall|i: int| 0 <= i < c.len() implies r2.entry_ok(#[trigger] c[i])
            && r2.entry_neis(c[i]) == r1.entry_neis(c[i]) && (r2.mod_neis(c[i]).len() <= 1) && (
        r2.mod_neis(c[i]).len() == 1 ==> r2.mod_ok(r2.mod_neis(c[i])[0])) by {
            assert(r1.entry_ok(c[i]));
            assert(c[i] != x);
            assert(r2.entry_neis(c[i]) == r1.entry_neis(c[i]).filter(ne));
            assert(r1.entry_neis(c[i]).filter(ne) == r1.entry_neis(c[i])) by {
                if i + 1 < c.len() {
                    assert(r1.entry_neis(c[i]) == seq![c[i + 1]]);
                    assert(c[i + 1] != x);
                    assert forall|j: int| 0 <= j < r1.entry_neis(c[i]).len() implies ne(
                        #[trigger] r1.entry_neis(c[i])[j],
                    ) by {}
                    crate::model::lemma_filter_all(r1.entry_neis(c[i]), ne);
                } else {
                    assert(r1.entry_neis(c[i]) =~= Seq::<int>::empty());
                    crate::model::lemma_filter_all(r1.entry_neis(c[i]), ne);
                }
            }
            assert(r2.mod_neis(c[i]) == r1.mod_neis(c[i]).filter(ne));
            r1.mod_neis(c[i]).lemma_filter_len(ne);
            if r2.mod_neis(c[i]).len() == 1 {
                crate::model::lemma_filter_sub(r1.mod_neis(c[i]), ne);
                let m = r2.mod_neis(c[i])[0];
                assert(r1.mod_neis(c[i]).contains(m) && m != x);
                let k = choose|k: int|
                    0 <= k < r1.mod_neis(c[i]).len() && r1.mod_neis(c[i])[k] == m;
                assert(r1.mod_neis(c[i]).len() == 1);
                assert(r1.mod_ok(r1.mod_neis(c[i])[0]));
            }
        }
        }
    }
    assert forall|p1: int, p2: int, en: int|
        r2.chains@.dom().contains(p1) && r2.chains@.dom().contains(p2) && p1 != p2
            && #[trigger] r2.chains@[p1].contains(en) implies !(#[trigger] r2.chains@[p2].contains(
        en,
    )) by {
        assert forall|q: int, y: int| #[trigger] r2.chains@.dom().contains(q) && #[trigger] r2.chains@[q].contains(
            y,
        ) implies r1.chains@[q].contains(y) by {
            if mode matches ChainsMode::Truncated(p0, i0) && p0 == q {
                let jx = choose|jx: int|
                    0 <= jx < r2.chains@[q].len() && r2.chains@[q][jx] == y;
                assert(r1.chains@[q][jx] == y);
            } else if mode matches ChainsMode::Beheaded(p0) && p0 == q {
                assert(r2.chains@[q] =~= Seq::<int>::empty());
            }
        }
        assert(r1.chains@[p1].contains(en));
        if r2.chains@[p2].contains(en) {
            assert(r1.chains@[p2].contains(en));
        }
    }
    assert(r2.chains_ok());
    // Tools.
    assert forall|i: int| 0 <= i < r2.tools_v().len() implies r2.tool_ok(
        #[trigger] r2.tools_v()[i],
    ) by {
        crate::model::lemma_filter_sub(r1.tools_v(), ne);
        let t = r2.tools_v()[i];
        assert(r1.tools_v().contains(t) && t != x);
        let j = choose|j: int| 0 <= j < r1.tools_v().len() && r1.tools_v()[j] == t;
        assert(r1.tool_ok(t));
    }
    assert(r2.tools_v().no_duplicates()) by {
        crate::model::lemma_filter_nodup(r1.tools_v(), ne);
    }
    assert(r2.counter_ok());
    assert(r2.wf_state());
}

impl Repository {
    /// Walk one profile's entry chain, returning the entry addresses in load
    /// order.

    #[verifier::spinoff_prover]
       pub(crate) fn chain_addrs(&self, p: i64) -> (r: Result<Vec<i64>, Error>)
        requires
            self.wf_state(),
            p > 0,
            self.chains@.dom().contains(p as int),
        ensures
            r matches Ok(v) ==> v@.map_values(crate::store::addr_int()) == self.chains@[p as int]
                && (forall|j: int|
                0 <= j < v@.len() ==> #[trigger] v@[j] > 0 && self.st().has_node(v@[j] as int)),
            r matches Err(e) ==> e is Internal,
    {
        let ghost c = self.chains@[p as int];
        proof {
            assert(self.chain_ok(p as int, c));
            assert(self.is_profile(p as int));
            let gi = choose|gi: int|
                0 <= gi < self.games_v().len() && self.profiles_v(
                    #[trigger] self.games_v()[gi],
                ).contains(p as int);
            let jj = choose|jj: int|
                0 <= jj < self.profiles_v(self.games_v()[gi]).len() && self.profiles_v(
                    self.games_v()[gi],
                )[jj] == p as int;
            assert(self.profile_ok(p as int));
        }
        let mut out: Vec<i64> = Vec::new();
        let mut cur: i64 = p;
        let mut i: usize = 0;
        loop
            invariant
                self.wf_state(),
                self.chain_ok(p as int, c),
                p > 0,
                c == self.chains@[p as int],
                i <= c.len(),
                out@.map_values(crate::store::addr_int()) == c.take(i as int),
                out@.len() == i as int,
                cur > 0,
                self.st().has_node(cur as int),
                i as int == 0 ==> cur == p,
                i as int > 0 ==> cur as int == c[i as int - 1],
                forall|j: int|
                    0 <= j < out@.len() ==> #[trigger] out@[j] > 0 && self.st().has_node(
                        out@[j] as int,
                    ),
            decreases c.len() - i,
        {
            let ns = self.neighbors_with_kind(cur, KIND_ENTRY)?;
            proof {
                if i as int == 0 {
                    assert(self.entry_neis(p as int) == (if c.len() == 0 {
                        Seq::<int>::empty()
                    } else {
                        seq![c[0]]
                    }));
                } else {
                    assert(self.entry_neis(c[i as int - 1]) == (if (i as int) < c.len() {
                        seq![c[i as int]]
                    } else {
                        Seq::<int>::empty()
                    }));
                }
            }
            if ns.len() == 0 {
                proof {
                    assert(i as int == c.len()) by {
                        if (i as int) < c.len() {
                            if i as int == 0 {
                                assert(self.entry_neis(p as int).len() == 1);
                                assert(ns@.map_values(crate::store::addr_int()).len() == 0);
                            } else {
                                assert(self.entry_neis(c[i as int - 1]).len() == 1);
                            }
                        }
                    }
                    assert(c.take(i as int) =~= c);
                }
                return Ok(out);
            }
            if i >= usize::MAX - 1 {
                return Err(Error::Internal("entry chain is too long".to_owned()));
            }
            let nxt = ns[0];
            proof {
                assert(ns@.map_values(crate::store::addr_int())[0] == nxt as int);
                assert((i as int) < c.len()) by {
                    if i as int == c.len() {
                        if i as int == 0 {
                            assert(self.entry_neis(p as int).len() == 0);
                        } else {
                            assert(self.entry_neis(c[i as int - 1]).len() == 0);
                        }
                    }
                }
                assert(nxt as int == c[i as int]);
                assert(self.entry_ok(c[i as int]));
            }
            let ghost prev = out@;
            out.push(nxt);
            proof {
                assert(out@ == prev.push(nxt));
                assert(out@.map_values(crate::store::addr_int()) =~= c.take(i as int + 1));
            }
            cur = nxt;
            i = i + 1;
        }
    }
}

impl Repository {
    /// Open a fresh in-memory repository: the store must be empty, so the
    /// bootstrap is proven to leave it well-formed. A store that already
    /// holds data is refused.
    pub fn open_fresh_memory(name: &str, lib_dir: String, backup_dir: &str) -> (r: Result<
        Repository,
        Error,
    >)
        ensures
            r matches Ok(repo) ==> repo.wf() && !repo.poisoned && repo.wf_state() && repo.fs@
                == Seq::<FsOp>::empty() && repo.chains@ == Map::<int, Seq<int>>::empty()
                && repo.games_v() == Seq::<int>::empty() && repo.counter_of() == Some(Val::U64(0)),
            r matches Err(e) ==> e is Internal,
    {
        let s = match Store::open_memory(name) {
            Ok(s) => s,
            Err(f) => {
                return Err(Error::Internal(f.message));
            },
        };
        let n = match s.count_nodes() {
            Ok(n) => n,
            Err(f) => {
                return Err(Error::Internal(f.message));
            },
        };
        if n != 0 {
            return Err(Error::Internal("the store already holds data".to_owned()));
        }
        proof {
            assert(s.nodes().dom() =~= Set::<int>::empty()) by {
                if s.nodes().dom() != Set::<int>::empty() {
                    assert(exists|a: int| s.nodes().dom().contains(a)) by {
                        if forall|a: int| !(#[trigger] s.nodes().dom().contains(a)) {
                            assert(s.nodes().dom() =~= Set::<int>::empty());
                        }
                    }
                    let a = choose|a: int| s.nodes().dom().contains(a);
                    vstd::set_lib::lemma_set_empty_equivalency_len(s.nodes().dom());
                }
            }
        }
        Self::attach(s, lib_dir, backup_dir)
    }
}

/// A mutation that rolled back (the views are unchanged) preserves
/// well-formedness even though the store value itself changed.

#[verifier::spinoff_prover]
pub proof fn lemma_wf_same_store_views(r1: Repository, r2: Repository)
    requires
        r1.wf_state(),
        r2.roots == r1.roots,
        r2.chains == r1.chains,
        r2.st().ok(),
        r2.st().nodes() == r1.st().nodes(),
        r2.st().edges() == r1.st().edges(),
    ensures
        r2.wf_state(),
{
    lemma_wf_frame_nonentity(r1, r2, 0);
}

/// Changing the fields of a node `x` that no edge touches (so it appears in
/// no listing) and that is not a root preserves well-formedness; the node set
/// may grow by `x` itself and every listing stays as it was.

#[verifier::spinoff_prover]
pub proof fn lemma_wf_frame_unlinked(r1: Repository, r2: Repository, x: int)
    requires
        r1.wf_state(),
        r2.roots == r1.roots,
        r2.chains == r1.chains,
        r2.st().ok(),
        r2.st().edges() == r1.st().edges(),
        forall|b: int| b != x ==> (r2.st().has_node(b) <==> r1.st().has_node(b)),
        forall|b: int, k: Seq<char>| b != x ==> r2.st().field(b, k) == r1.st().field(b, k),
        forall|i: int|
            0 <= i < r1.st().edges().len() ==> (#[trigger] r1.st().edges()[i]).dst != x && r1.st().edges()[i].src != x,
        x != r1.roots.games as int,
        x != r1.roots.tools as int,
        x != r1.roots.active_game as int,
        x != r1.roots.active_profile as int,
        x != r1.roots.version as int,
        x != r1.roots.counter as int,
    ensures
        r2.wf_state(),
        r2.games_v() == r1.games_v(),
        r2.tools_v() == r1.tools_v(),
        r2.actives_v() == r1.actives_v(),
        r2.active_ps_v() == r1.active_ps_v(),
        forall|g: int| r2.profiles_v(g) == r1.profiles_v(g),
        forall|g: int| r2.mods_v(g) == r1.mods_v(g),
        forall|a: int| r2.entry_neis(a) == r1.entry_neis(a),
        forall|a: int| r2.mod_neis(a) == r1.mod_neis(a),
        forall|a: int| r2.game_in_neis(a) == r1.game_in_neis(a),
{
    crate::model::lemma_unlisted(r1.st(), x);
    crate::model::lemma_unlisted_src(r1.st(), x);
    assert forall|b: int, k: u64| #[trigger] r2.st().neis(b).filter(kind_pred(r2.st(), k))
        == r1.st().neis(b).filter(kind_pred(r1.st(), k)) by {
        assert forall|j: int| 0 <= j < r1.st().neis(b).len() implies (kind_pred(r2.st(), k)(
            #[trigger] r1.st().neis(b)[j],
        ) <==> kind_pred(r1.st(), k)(r1.st().neis(b)[j])) by {
            assert(r1.st().neis(b).contains(r1.st().neis(b)[j]));
            assert(r1.st().neis(b)[j] != x);
        }
        crate::model::lemma_filter_congruence(
            r1.st().neis(b),
            kind_pred(r2.st(), k),
            kind_pred(r1.st(), k),
        );
    }
    assert forall|b: int, k: u64| #[trigger] r2.st().in_neis(b).filter(kind_pred(r2.st(), k))
        == r1.st().in_neis(b).filter(kind_pred(r1.st(), k)) by {
        assert forall|j: int| 0 <= j < r1.st().in_neis(b).len() implies (kind_pred(r2.st(), k)(
            #[trigger] r1.st().in_neis(b)[j],
        ) <==> kind_pred(r1.st(), k)(r1.st().in_neis(b)[j])) by {
            assert(r1.st().in_neis(b).contains(r1.st().in_neis(b)[j]));
            assert(r1.st().in_neis(b)[j] != x);
        }
        crate::model::lemma_filter_congruence(
            r1.st().in_neis(b),
            kind_pred(r2.st(), k),
            kind_pred(r1.st(), k),
        );
    }
    assert(r2.roots_ok());
    assert forall|i: int| 0 <= i < r2.games_v().len() implies r2.game_ok(
        #[trigger] r2.games_v()[i],
    ) by {
        assert(r1.games_v().contains(r1.games_v()[i]));
        assert(r1.games_v()[i] != x);
        assert(r1.game_ok(r1.games_v()[i]));
    }
    assert(r2.games_ok());
    assert(r2.actives_ok());
    assert forall|i: int| 0 <= i < r2.games_v().len() implies r2.game_children_ok(
        #[trigger] r2.games_v()[i],
    ) by {
        let g = r2.games_v()[i];
        assert(r1.game_children_ok(g));
        assert(r2.profiles_v(g) == r1.profiles_v(g));
        assert(r2.mods_v(g) == r1.mods_v(g));
        assert forall|j: int| 0 <= j < r2.profiles_v(g).len() implies r2.profile_ok(
            #[trigger] r2.profiles_v(g)[j],
        ) && r2.game_in_neis(r2.profiles_v(g)[j]) == seq![g] by {
            assert(r1.profiles_v(g).contains(r1.profiles_v(g)[j]));
            assert(r1.st().neis(g).contains(r1.profiles_v(g)[j])) by {
                crate::model::lemma_filter_sub(r1.st().neis(g), kind_pred(r1.st(), KIND_PROFILE));
            }
            assert(r1.profiles_v(g)[j] != x);
            assert(r1.profile_ok(r1.profiles_v(g)[j]));
        }
        assert forall|j: int| 0 <= j < r2.mods_v(g).len() implies r2.mod_ok(
            #[trigger] r2.mods_v(g)[j],
        ) && r2.game_in_neis(r2.mods_v(g)[j]) == seq![g] by {
            assert(r1.mods_v(g).contains(r1.mods_v(g)[j]));
            assert(r1.st().neis(g).contains(r1.mods_v(g)[j])) by {
                crate::model::lemma_filter_sub(r1.st().neis(g), kind_pred(r1.st(), KIND_MOD));
            }
            assert(r1.mods_v(g)[j] != x);
            assert(r1.mod_ok(r1.mods_v(g)[j]));
        }
    }
    assert(r2.children_ok());
    assert forall|gi: int| 0 <= gi < r2.games_v().len() implies r2.active_ps_v().filter(
        |p: int| r2.profiles_v(#[trigger] r2.games_v()[gi]).contains(p),
    ).len() <= 1 by {
        let g = r2.games_v()[gi];
        crate::model::lemma_filter_congruence(
            r1.active_ps_v(),
            |p: int| r2.profiles_v(g).contains(p),
            |p: int| r1.profiles_v(g).contains(p),
        );
    }
    assert forall|p: int| r2.is_profile(p) <==> r1.is_profile(p) by {
        if r1.is_profile(p) {
            let gi = choose|gi: int|
                0 <= gi < r1.games_v().len() && r1.profiles_v(#[trigger] r1.games_v()[gi]).contains(
                    p,
                );
            assert(r2.profiles_v(r2.games_v()[gi]).contains(p));
        }
        if r2.is_profile(p) {
            let gi = choose|gi: int|
                0 <= gi < r2.games_v().len() && r2.profiles_v(#[trigger] r2.games_v()[gi]).contains(
                    p,
                );
            assert(r1.profiles_v(r1.games_v()[gi]).contains(p));
        }
    }
    assert(r2.active_ps_ok());
    assert forall|p: int| #[trigger] r2.chains@.dom().contains(p) implies r2.chain_ok(
        p,
        r2.chains@[p],
    ) by {
        assert(r1.chain_ok(p, r1.chains@[p]));
        let c = r2.chains@[p];
        assert forall|i: int| 0 <= i < c.len() implies r2.entry_ok(#[trigger] c[i]) && (
        r2.mod_neis(c[i])).len() <= 1 && (r2.mod_neis(c[i]).len() == 1 ==> r2.mod_ok(
            r2.mod_neis(c[i])[0],
        )) by {
            if i == 0 {
                assert(r1.entry_neis(p)[0] == c[0]);
                assert(r1.st().neis(p).contains(c[0])) by {
                    crate::model::lemma_filter_sub(r1.st().neis(p), kind_pred(r1.st(), KIND_ENTRY));
                    assert(r1.st().neis(p).filter(kind_pred(r1.st(), KIND_ENTRY))[0] == c[0]);
                }
            } else {
                assert(r1.entry_neis(c[i - 1]) == seq![c[i]]);
                assert(r1.st().neis(c[i - 1]).contains(c[i])) by {
                    crate::model::lemma_filter_sub(
                        r1.st().neis(c[i - 1]),
                        kind_pred(r1.st(), KIND_ENTRY),
                    );
                    assert(r1.st().neis(c[i - 1]).filter(kind_pred(r1.st(), KIND_ENTRY))[0] == c[i]);
                }
            }
            assert(c[i] != x);
            assert(r1.entry_ok(c[i]));
            assert(r2.mod_neis(c[i]) == r1.mod_neis(c[i]));
            if r1.mod_neis(c[i]).len() == 1 {
                assert(r1.mod_ok(r1.mod_neis(c[i])[0]));
                assert(r1.st().neis(c[i]).contains(r1.mod_neis(c[i])[0])) by {
                    crate::model::lemma_filter_sub(r1.st().neis(c[i]), kind_pred(r1.st(), KIND_MOD));
                }
                assert(r1.mod_neis(c[i])[0] != x);
            }
        }
    }
    assert(r2.chains_ok());
    assert forall|i: int| 0 <= i < r2.tools_v().len() implies r2.tool_ok(
        #[trigger] r2.tools_v()[i],
    ) by {
        assert(r1.tools_v().contains(r1.tools_v()[i]));
        assert(r1.tools_v()[i] != x);
        assert(r1.tool_ok(r1.tools_v()[i]));
    }
    assert(r2.counter_ok());
    assert(r2.wf_state());
}

/// Changing fields of one node `x` that is not an entity (it has no kind) and
/// keeping the node set, the edges and the roots preserves well-formedness,
/// provided the uid counter still reads as an integer.

#[verifier::spinoff_prover]
pub proof fn lemma_wf_frame_nonentity(r1: Repository, r2: Repository, x: int)
    requires
        r1.wf_state(),
        r2.roots == r1.roots,
        r2.chains == r1.chains,
        r2.st().ok(),
        r2.st().edges() == r1.st().edges(),
        forall|b: int| r2.st().has_node(b) <==> r1.st().has_node(b),
        forall|b: int, k: Seq<char>| b != x ==> r2.st().field(b, k) == r1.st().field(b, k),
        r2.st().field(x, "kind"@) == r1.st().field(x, "kind"@),
        r1.st().field(x, "kind"@) is None,
        r2.counter_of() matches Some(v) && v is U64,
    ensures
        r2.wf_state(),
{
    lemma_field_frame(r1, r2, x);
    assert forall|a: int, k: u64| r1.is_kind(a, k) implies (forall|key: Seq<char>|
        r2.st().field(a, key) == r1.st().field(a, key)) by {
        assert(a != x);
    }
    assert(r2.roots_ok());
    assert(r2.games_ok());
    assert(r2.actives_ok());
    assert forall|i: int| 0 <= i < r2.games_v().len() implies r2.game_children_ok(
        #[trigger] r2.games_v()[i],
    ) by {
        let g = r2.games_v()[i];
        assert(r1.game_children_ok(g));
        assert(r2.profiles_v(g) == r1.profiles_v(g));
        assert(r2.mods_v(g) == r1.mods_v(g));
    }
    assert(r2.children_ok());
    assert forall|gi: int| 0 <= gi < r2.games_v().len() implies r2.active_ps_v().filter(
        |p: int| r2.profiles_v(#[trigger] r2.games_v()[gi]).contains(p),
    ).len() <= 1 by {
        let g = r2.games_v()[gi];
        crate::model::lemma_filter_congruence(
            r1.active_ps_v(),
            |p: int| r2.profiles_v(g).contains(p),
            |p: int| r1.profiles_v(g).contains(p),
        );
    }
    assert forall|p: int| r2.is_profile(p) <==> r1.is_profile(p) by {
        if r1.is_profile(p) {
            let gi = choose|gi: int|
                0 <= gi < r1.games_v().len() && r1.profiles_v(#[trigger] r1.games_v()[gi]).contains(
                    p,
                );
            assert(r2.profiles_v(r2.games_v()[gi]).contains(p));
        }
        if r2.is_profile(p) {
            let gi = choose|gi: int|
                0 <= gi < r2.games_v().len() && r2.profiles_v(#[trigger] r2.games_v()[gi]).contains(
                    p,
                );
            assert(r1.profiles_v(r1.games_v()[gi]).contains(p));
        }
    }
    assert(r2.active_ps_ok());
    assert forall|p: int| #[trigger] r2.chains@.dom().contains(p) implies r2.chain_ok(
        p,
        r2.chains@[p],
    ) by {
        assert(r1.chain_ok(p, r1.chains@[p]));
        let c = r2.chains@[p];
        assert forall|i: int| 0 <= i < c.len() implies r2.entry_ok(#[trigger] c[i]) && (
        r2.mod_neis(c[i])).len() <= 1 && (r2.mod_neis(c[i]).len() == 1 ==> r2.mod_ok(
            r2.mod_neis(c[i])[0],
        )) by {
            assert(r1.entry_ok(c[i]));
            assert(r2.mod_neis(c[i]) == r1.mod_neis(c[i]));
            if r1.mod_neis(c[i]).len() == 1 {
                assert(r1.mod_ok(r1.mod_neis(c[i])[0]));
            }
        }
    }
    assert(r2.chains_ok());
    assert(r2.counter_ok());
    assert(r2.tools_ok());
}

/// The field keys this layer writes are pairwise distinct.
pub proof fn lemma_field_keys()
    ensures
        "uid"@ != "kind"@,
        "uid"@ != "name"@,
        "uid"@ != "deploy_kind"@,
        "uid"@ != "targets"@,
        "uid"@ != "enabled"@,
        "uid"@ != "notes"@,
        "uid"@ != "path"@,
        "uid"@ != "args"@,
        "uid"@ != "next_uid"@,
        "uid"@ != "model_version"@,
        "kind"@ != "name"@,
        "kind"@ != "deploy_kind"@,
        "kind"@ != "targets"@,
        "kind"@ != "enabled"@,
        "kind"@ != "notes"@,
        "kind"@ != "path"@,
        "kind"@ != "args"@,
        "kind"@ != "next_uid"@,
        "kind"@ != "model_version"@,
        "name"@ != "deploy_kind"@,
        "name"@ != "targets"@,
        "name"@ != "enabled"@,
        "name"@ != "notes"@,
        "name"@ != "path"@,
        "name"@ != "args"@,
        "name"@ != "next_uid"@,
        "name"@ != "model_version"@,
        "deploy_kind"@ != "targets"@,
        "deploy_kind"@ != "enabled"@,
        "deploy_kind"@ != "notes"@,
        "deploy_kind"@ != "path"@,
        "deploy_kind"@ != "args"@,
        "deploy_kind"@ != "next_uid"@,
        "deploy_kind"@ != "model_version"@,
        "targets"@ != "enabled"@,
        "targets"@ != "notes"@,
        "targets"@ != "path"@,
        "targets"@ != "args"@,
        "targets"@ != "next_uid"@,
        "targets"@ != "model_version"@,
        "enabled"@ != "notes"@,
        "enabled"@ != "path"@,
        "enabled"@ != "args"@,
        "enabled"@ != "next_uid"@,
        "enabled"@ != "model_version"@,
        "notes"@ != "path"@,
        "notes"@ != "args"@,
        "notes"@ != "next_uid"@,
        "notes"@ != "model_version"@,
        "path"@ != "args"@,
        "path"@ != "next_uid"@,
        "path"@ != "model_version"@,
        "args"@ != "next_uid"@,
        "args"@ != "model_version"@,
        "next_uid"@ != "model_version"@,
{
    reveal_strlit("args");
    reveal_strlit("deploy_kind");
    reveal_strlit("enabled");
    reveal_strlit("kind");
    reveal_strlit("model_version");
    reveal_strlit("name");
    reveal_strlit("next_uid");
    reveal_strlit("notes");
    reveal_strlit("path");
    reveal_strlit("targets");
    reveal_strlit("uid");
    assert("args"@.len() == 4);
    assert("args"@[0] == 'a');
    assert("deploy_kind"@.len() == 11);
    assert("deploy_kind"@[0] == 'd');
    assert("enabled"@.len() == 7);
    assert("enabled"@[0] == 'e');
    assert("kind"@.len() == 4);
    assert("kind"@[0] == 'k');
    assert("model_version"@.len() == 13);
    assert("model_version"@[0] == 'm');
    assert("name"@.len() == 4);
    assert("name"@[0] == 'n');
    assert("next_uid"@.len() == 8);
    assert("next_uid"@[0] == 'n');
    assert("notes"@.len() == 5);
    assert("notes"@[0] == 'n');
    assert("path"@.len() == 4);
    assert("path"@[0] == 'p');
    assert("targets"@.len() == 7);
    assert("targets"@[0] == 't');
    assert("uid"@.len() == 3);
    assert("uid"@[0] == 'u');
}

/// The root alias names are pairwise distinct.
pub proof fn lemma_root_names()
    ensures
        "games"@ != "profiles"@,
        "games"@ != "mods"@,
        "games"@ != "mod_entries"@,
        "games"@ != "tools"@,
        "games"@ != "active_game"@,
        "games"@ != "active_profile"@,
        "games"@ != "model_version"@,
        "games"@ != "next_uid"@,
        "profiles"@ != "mods"@,
        "profiles"@ != "mod_entries"@,
        "profiles"@ != "tools"@,
        "profiles"@ != "active_game"@,
        "profiles"@ != "active_profile"@,
        "profiles"@ != "model_version"@,
        "profiles"@ != "next_uid"@,
        "mods"@ != "mod_entries"@,
        "mods"@ != "tools"@,
        "mods"@ != "active_game"@,
        "mods"@ != "active_profile"@,
        "mods"@ != "model_version"@,
        "mods"@ != "next_uid"@,
        "mod_entries"@ != "tools"@,
        "mod_entries"@ != "active_game"@,
        "mod_entries"@ != "active_profile"@,
        "mod_entries"@ != "model_version"@,
        "mod_entries"@ != "next_uid"@,
        "tools"@ != "active_game"@,
        "tools"@ != "active_profile"@,
        "tools"@ != "model_version"@,
        "tools"@ != "next_uid"@,
        "active_game"@ != "active_profile"@,
        "active_game"@ != "model_version"@,
        "active_game"@ != "next_uid"@,
        "active_profile"@ != "model_version"@,
        "active_profile"@ != "next_uid"@,
        "model_version"@ != "next_uid"@,
{
    reveal_strlit("active_game");
    reveal_strlit("active_profile");
    reveal_strlit("games");
    reveal_strlit("mod_entries");
    reveal_strlit("model_version");
    reveal_strlit("mods");
    reveal_strlit("next_uid");
    reveal_strlit("profiles");
    reveal_strlit("tools");
    assert("active_game"@.len() == 11);
    assert("active_game"@[0] == 'a');
    assert("active_profile"@.len() == 14);
    assert("active_profile"@[0] == 'a');
    assert("games"@.len() == 5);
    assert("games"@[0] == 'g');
    assert("mod_entries"@.len() == 11);
    assert("mod_entries"@[0] == 'm');
    assert("model_version"@.len() == 13);
    assert("model_version"@[0] == 'm');
    assert("mods"@.len() == 4);
    assert("mods"@[0] == 'm');
    assert("next_uid"@.len() == 8);
    assert("next_uid"@[0] == 'n');
    assert("profiles"@.len() == 8);
    assert("profiles"@[0] == 'p');
    assert("tools"@.len() == 5);
    assert("tools"@[0] == 't');
}

} // verus!
