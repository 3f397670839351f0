//! Games: the top-level entities, listed from the "games" root.
use vstd::prelude::*;

use crate::errors::Error;
use crate::fsops::FsOp;
use crate::ids::{get_text, get_text_list, get_u64, EntityId};
use crate::model::{lemma_filter_all, lemma_filter_congruence, lemma_filter_push, lemma_push_edge};
use crate::repo::{
    kind_pred, lemma_field_keys, lemma_wf_frame_unlinked, DeployKind, Repository, KIND_ENTRY,
    KIND_GAME, KIND_MOD, KIND_PROFILE,
};
use crate::store::{FieldValue, GEdge, GetValue, Val};
use vstd::string::StringExecFns;

verus! {

/// A handle on one game: its address paired with its never-reused uid.
#[derive(Debug, Clone, Copy, PartialEq, Eq, Structural)]
pub struct Game {
    pub id: EntityId,
}

/// Some listed game already carries this name.
pub open spec fn game_name_taken(r: Repository, n: Seq<char>) -> bool {
    exists|i: int|
        0 <= i < r.games_v().len() && r.name_of(#[trigger] r.games_v()[i]) == Some(Val::Text(n))
}

/// The on-disk directory of a game: the library directory joined with the
/// snake-cased game name.
pub open spec fn game_dir_spec(lib: Seq<char>, name: Seq<char>) -> Seq<char> {
    lib + "/"@ + crate::store::snake_of(name)
}

/// Build a game directory path.
pub fn game_dir_str(lib_dir: &str, name: &str) -> (r: String)
    ensures
        r@ == game_dir_spec(lib_dir@, name@),
{
    let mut s = lib_dir.to_owned();
    s.append("/");
    let sn = crate::store::snake_case(name);
    s.append(sn.as_str());
    s
}

/// Linking a fresh, fully fielded game node under the "games" root (and,
/// when no game was active, under the "active_game" root first) yields a
/// well-formed state whose game listing gained exactly the new game.

#[verifier::spinoff_prover]
proof fn lemma_wf_link_game(
    r1: Repository,
    r2: Repository,
    x: int,
    activated: bool,
    e1: GEdge,
    e2: GEdge,
)
    requires
        r1.wf_state(),
        r2.roots == r1.roots,
        r2.chains == r1.chains,
        r2.st().ok(),
        r2.st().nodes() == r1.st().nodes(),
        r1.game_ok(x),
        forall|i: int|
            0 <= i < r1.st().edges().len() ==> (#[trigger] r1.st().edges()[i]).dst != x
                && r1.st().edges()[i].src != x,
        x != r1.roots.games as int,
        x != r1.roots.tools as int,
        x != r1.roots.active_game as int,
        x != r1.roots.active_profile as int,
        x != r1.roots.version as int,
        x != r1.roots.counter as int,
        e2 == (GEdge { eid: e2.eid, src: r1.roots.games as int, dst: x }),
        activated ==> r1.actives_v() == Seq::<int>::empty() && e1 == (GEdge {
            eid: e1.eid,
            src: r1.roots.active_game as int,
            dst: x,
        }) && r2.st().edges() == r1.st().edges().push(e1).push(e2),
        !activated ==> r2.st().edges() == r1.st().edges().push(e2),
    ensures
        r2.wf_state(),
        r2.games_v() == seq![x] + r1.games_v(),
        r2.actives_v() == (if activated {
            seq![x]
        } else {
            r1.actives_v()
        }),
        r2.active_ps_v() == r1.active_ps_v(),
        r2.tools_v() == r1.tools_v(),
        forall|g: int| r2.profiles_v(g) == r1.profiles_v(g),
        forall|g: int| r2.mods_v(g) == r1.mods_v(g),
{
    crate::model::lemma_unlisted(r1.st(), x);
    crate::model::lemma_unlisted_src(r1.st(), x);
    let groot = r1.roots.games as int;
    let aroot = r1.roots.active_game as int;
    // Establish how every neighbour listing moved across the pushes.
    if activated {
        let rm = Repository {
            store: r2.store,
            roots: r1.roots,
            lib_dir: r1.lib_dir,
            fs: r1.fs,
            poisoned: r1.poisoned,
            chains: r1.chains,
        };
        assert(r2.st().edges().drop_last() =~= r1.st().edges().push(e1));
    }
    assert forall|a: int| true implies #[trigger] r2.st().neis(a) == (if a == groot {
        seq![x] + r1.st().neis(a)
    } else if a == aroot && activated {
        seq![x] + r1.st().neis(a)
    } else {
        r1.st().neis(a)
    }) by {
        if activated {
            let mid = r1.st().edges().push(e1);
            assert(r2.st().edges() == mid.push(e2));
            crate::model::lemma_filter_push(r1.st().edges(), crate::store::src_is(a), e1);
            crate::model::lemma_filter_push(mid, crate::store::src_is(a), e2);
            if a == aroot {
                crate::model::lemma_reverse_push(r1.st().out_src(a), e1);
                assert(mid.filter(crate::store::src_is(a)) == r1.st().out_src(a).push(e1));
                assert(r2.st().edges().filter(crate::store::src_is(a)) == r1.st().out_src(a).push(
                    e1,
                ));
                assert((seq![e1] + r1.st().out_src(a).reverse()).map_values(
                    crate::store::edge_dst(),
                ) =~= seq![x] + r1.st().neis(a));
            } else if a == groot {
                assert(mid.filter(crate::store::src_is(a)) == r1.st().out_src(a));
                assert(r2.st().edges().filter(crate::store::src_is(a)) == r1.st().out_src(a).push(
                    e2,
                ));
                crate::model::lemma_reverse_push(r1.st().out_src(a), e2);
                assert((seq![e2] + r1.st().out_src(a).reverse()).map_values(
                    crate::store::edge_dst(),
                ) =~= seq![x] + r1.st().neis(a));
            } else {
                assert(r2.st().out_src(a) == r1.st().out_src(a));
            }
        } else {
            crate::model::lemma_filter_push(r1.st().edges(), crate::store::src_is(a), e2);
            if a == groot {
                crate::model::lemma_reverse_push(r1.st().out_src(a), e2);
                assert((seq![e2] + r1.st().out_src(a).reverse()).map_values(
                    crate::store::edge_dst(),
                ) =~= seq![x] + r1.st().neis(a));
            } else {
                assert(r2.st().out_src(a) == r1.st().out_src(a));
            }
        }
    }
    assert forall|a: int| a != x implies #[trigger] r2.st().in_neis(a) == r1.st().in_neis(a) by {
        if activated {
            let mid = r1.st().edges().push(e1);
            crate::model::lemma_filter_push(r1.st().edges(), crate::store::dst_is(a), e1);
            crate::model::lemma_filter_push(mid, crate::store::dst_is(a), e2);
        } else {
            crate::model::lemma_filter_push(r1.st().edges(), crate::store::dst_is(a), e2);
        }
    }
    // Fields are untouched, so kind-based filters keep their meaning.
    assert forall|sq: Seq<int>, k: u64| true implies #[trigger] sq.filter(kind_pred(r2.st(), k))
        == sq.filter(kind_pred(r1.st(), k)) by {
        assert forall|j: int| 0 <= j < sq.len() implies (kind_pred(r2.st(), k)(#[trigger] sq[j]) <==>
        kind_pred(r1.st(), k)(sq[j])) by {}
        crate::model::lemma_filter_congruence(sq, kind_pred(r2.st(), k), kind_pred(r1.st(), k));
    }
    // The game listing gained exactly the new game at the front.
    assert(r2.games_v() == seq![x] + r1.games_v());
    assert(!r1.games_v().contains(x));
    assert forall|i: int| 0 <= i < r2.games_v().len() implies r2.game_ok(
        #[trigger] r2.games_v()[i],
    ) by {
        if i == 0 {
            assert(r2.games_v()[0] == x);
        } else {
            assert(r2.games_v()[i] == r1.games_v()[i - 1]);
            assert(r1.game_ok(r1.games_v()[i - 1]));
        }
    }
    assert(r2.games_v().no_duplicates());
    assert(r2.games_ok());
    // Active pointer.
    if activated {
        assert(r2.actives_v() =~= seq![x] + Seq::<int>::empty());
        assert(r2.actives_v() =~= seq![x]);
        assert(r2.games_v().contains(x)) by {
            assert(r2.games_v()[0] == x);
        }
    } else {
        assert forall|i: int| 0 <= i < r2.actives_v().len() implies r2.games_v().contains(
            #[trigger] r2.actives_v()[i],
        ) by {
            assert(r1.games_v().contains(r1.actives_v()[i]));
            let j = choose|j: int|
                0 <= j < r1.games_v().len() && r1.games_v()[j] == r1.actives_v()[i];
            assert(r2.games_v()[j + 1] == r1.actives_v()[i]);
        }
    }
    assert(r2.actives_ok());
    // Children: the new game has none; old games keep theirs.
    assert(r2.st().neis(x) == r1.st().neis(x));
    assert(r1.st().neis(x) == Seq::<int>::empty()) by {
        crate::model::lemma_filter_all(r1.st().edges(), crate::store::src_is(x));
        assert(r1.st().out_src(x) =~= Seq::<GEdge>::empty());
        assert(r1.st().out_src(x).reverse() =~= Seq::<GEdge>::empty());
        assert(r1.st().neis(x) =~= Seq::<int>::empty());
    }
    assert(r2.profiles_v(x) =~= Seq::<int>::empty());
    assert(r2.mods_v(x) =~= Seq::<int>::empty());
    assert forall|g: int| true implies #[trigger] r2.profiles_v(g) == r1.profiles_v(g) by {
        if g == groot || (g == aroot && activated) {
            assert(!kind_pred(r1.st(), KIND_PROFILE)(x)) by {
                assert(r1.is_kind(x, KIND_GAME));
            }
            assert(r2.profiles_v(g) == (seq![x] + r1.st().neis(g)).filter(
                kind_pred(r1.st(), KIND_PROFILE),
            ));
            seq_prepend_filter(x, r1.st().neis(g), kind_pred(r1.st(), KIND_PROFILE));
        } else {
            assert(r2.st().neis(g) == r1.st().neis(g));
        }
    }
    assert forall|g: int| true implies #[trigger] r2.mods_v(g) == r1.mods_v(g) by {
        if g == groot || (g == aroot && activated) {
            assert(!kind_pred(r1.st(), KIND_MOD)(x)) by {
                assert(r1.is_kind(x, KIND_GAME));
            }
            assert(r2.mods_v(g) == (seq![x] + r1.st().neis(g)).filter(kind_pred(r1.st(), KIND_MOD)));
            seq_prepend_filter(x, r1.st().neis(g), kind_pred(r1.st(), KIND_MOD));
        } else {
            assert(r2.st().neis(g) == r1.st().neis(g));
        }
    }
    assert forall|i: int| 0 <= i < r2.games_v().len() implies r2.game_children_ok(
        #[trigger] r2.games_v()[i],
    ) by {
        let g = r2.games_v()[i];
        if i == 0 {
            assert(g == x);
            assert(r2.profiles_v(x).len() == 0);
            assert(r2.mods_v(x).len() == 0);
        } else {
            assert(g == r1.games_v()[i - 1]);
            assert(r1.game_children_ok(g));
            assert forall|j: int| 0 <= j < r2.profiles_v(g).len() implies r2.game_in_neis(
                #[trigger] r2.profiles_v(g)[j],
            ) == seq![g] by {
                let p = r1.profiles_v(g)[j];
                assert(r1.game_in_neis(p) == seq![g]);
                assert(p != x) by {
                    crate::model::lemma_filter_sub(r1.st().neis(g), kind_pred(r1.st(), KIND_PROFILE));
                    assert(r1.st().neis(g).contains(p));
                }
                assert(r2.st().in_neis(p) == r1.st().in_neis(p));
            }
            assert forall|j: int| 0 <= j < r2.mods_v(g).len() implies r2.game_in_neis(
                #[trigger] r2.mods_v(g)[j],
            ) == seq![g] by {
                let m = r1.mods_v(g)[j];
                assert(r1.game_in_neis(m) == seq![g]);
                assert(m != x) by {
                    crate::model::lemma_filter_sub(r1.st().neis(g), kind_pred(r1.st(), KIND_MOD));
                    assert(r1.st().neis(g).contains(m));
                }
                assert(r2.st().in_neis(m) == r1.st().in_neis(m));
            }
        }
    }
    assert forall|i: int, j: int, p: int|
        0 <= i < r2.games_v().len() && 0 <= j < r2.games_v().len() && i != j
            && #[trigger] r2.profiles_v(r2.games_v()[i]).contains(p) implies !(
    #[trigger] r2.profiles_v(r2.games_v()[j]).contains(p)) by {
        if i == 0 {
            assert(r2.profiles_v(x).len() == 0);
        } else if j == 0 {
            assert(r2.profiles_v(x).len() == 0);
        } else {
            assert(r1.profiles_v(r1.games_v()[i - 1]).contains(p));
        }
    }
    assert forall|i: int, j: int, m: int|
        0 <= i < r2.games_v().len() && 0 <= j < r2.games_v().len() && i != j
            && #[trigger] r2.mods_v(r2.games_v()[i]).contains(m) implies !(#[trigger] r2.mods_v(
        r2.games_v()[j],
    ).contains(m)) by {
        if i == 0 {
            assert(r2.mods_v(x).len() == 0);
        } else if j == 0 {
            assert(r2.mods_v(x).len() == 0);
        } else {
            assert(r1.mods_v(r1.games_v()[i - 1]).contains(m));
        }
    }
    assert(r2.children_ok());
    // Per-game active-profile pointers.
    assert(r2.active_ps_v() == r1.active_ps_v());
    assert forall|p: int| r2.is_profile(p) <==> r1.is_profile(p) by {
        if r1.is_profile(p) {
            let gi = choose|gi: int|
                0 <= gi < r1.games_v().len() && r1.profiles_v(#[trigger] r1.games_v()[gi]).contains(
                    p,
                );
            assert(r2.profiles_v(r2.games_v()[gi + 1]).contains(p));
        }
        if r2.is_profile(p) {
            let gi = choose|gi: int|
                0 <= gi < r2.games_v().len() && r2.profiles_v(#[trigger] r2.games_v()[gi]).contains(
                    p,
                );
            if gi == 0 {
                assert(r2.profiles_v(x).len() == 0);
            } else {
                assert(r1.profiles_v(r1.games_v()[gi - 1]).contains(p));
            }
        }
    }
    assert forall|gi: int| 0 <= gi < r2.games_v().len() implies r2.active_ps_v().filter(
        |p: int| r2.profiles_v(#[trigger] r2.games_v()[gi]).contains(p),
    ).len() <= 1 by {
        let g = r2.games_v()[gi];
        if gi == 0 {
            assert forall|j: int| 0 <= j < r2.active_ps_v().len() implies !(|p: int|
                r2.profiles_v(g).contains(p))(#[trigger] r2.active_ps_v()[j]) by {
                assert(r2.profiles_v(x).len() == 0);
            }
            crate::model::lemma_filter_all(
                r2.active_ps_v(),
                |p: int| r2.profiles_v(g).contains(p),
            );
        } else {
            let gold = r1.games_v()[gi - 1];
            assert(g == gold);
            crate::model::lemma_filter_congruence(
                r1.active_ps_v(),
                |p: int| r2.profiles_v(gold).contains(p),
                |p: int| r1.profiles_v(gold).contains(p),
            );
        }
    }
    assert(r2.active_ps_ok());
    // Chains are untouched.
    assert forall|a: int| true implies #[trigger] r2.entry_neis(a) == r1.entry_neis(a)
        && r2.mod_neis(a) == r1.mod_neis(a) by {
        if a == groot || (a == aroot && activated) {
            assert(!kind_pred(r1.st(), KIND_ENTRY)(x)) by {
                assert(r1.is_kind(x, KIND_GAME));
            }
            assert(!kind_pred(r1.st(), KIND_MOD)(x));
            assert(r2.st().neis(a) == seq![x] + r1.st().neis(a));
            seq_prepend_filter(x, r1.st().neis(a), kind_pred(r1.st(), KIND_ENTRY));
            seq_prepend_filter(x, r1.st().neis(a), kind_pred(r1.st(), KIND_MOD));
            assert(r2.entry_neis(a) == (seq![x] + r1.st().neis(a)).filter(
                kind_pred(r1.st(), KIND_ENTRY),
            ));
            assert(r2.mod_neis(a) == (seq![x] + r1.st().neis(a)).filter(kind_pred(r1.st(), KIND_MOD)));
        } else {
            assert(r2.st().neis(a) == r1.st().neis(a));
        }
    }
    assert forall|p: int| #[trigger] r2.chains@.dom().contains(p) implies r2.chain_ok(
        p,
        r2.chains@[p],
    ) by {
        assert(r1.chain_ok(p, r1.chains@[p]));
        let c = r2.chains@[p];
        assert(p != groot && (p != aroot || !activated)) by {
            assert(r1.is_profile(p));
            let gi = choose|gi: int|
                0 <= gi < r1.games_v().len() && r1.profiles_v(#[trigger] r1.games_v()[gi]).contains(
                    p,
                );
            crate::model::lemma_filter_sub(
                r1.st().neis(r1.games_v()[gi]),
                kind_pred(r1.st(), KIND_PROFILE),
            );
            let jj = choose|jj: int|
                0 <= jj < r1.profiles_v(r1.games_v()[gi]).len() && r1.profiles_v(
                    r1.games_v()[gi],
                )[jj] == p;
            assert(r1.profile_ok(p));
            assert(r1.st().field(groot, "kind"@) is None);
            assert(r1.st().field(aroot, "kind"@) is None);
        }
        assert forall|i: int| 0 <= i < c.len() implies r2.entry_ok(#[trigger] c[i]) by {
            assert(r1.entry_ok(c[i]));
        }
        assert forall|i: int|
            0 <= i < c.len() && r2.mod_neis(#[trigger] c[i]).len() == 1 implies r2.mod_ok(
            r2.mod_neis(c[i])[0],
        ) by {
            assert(r1.mod_ok(r1.mod_neis(c[i])[0]));
        }
    }
    assert(r2.chains_ok());
    assert forall|i: int| 0 <= i < r2.tools_v().len() implies r2.tool_ok(
        #[trigger] r2.tools_v()[i],
    ) by {
        assert(r1.tool_ok(r1.tools_v()[i]));
    }
    assert(r2.roots_ok());
    assert(r2.counter_ok());
    assert(r2.wf_state());
}

/// Prepending one element distributes over filtering.

#[verifier::spinoff_prover]
pub(crate) proof fn seq_prepend_filter(x: int, s: Seq<int>, p: spec_fn(int) -> bool)
    ensures
        p(x) ==> (seq![x] + s).filter(p) == seq![x] + s.filter(p),
        !p(x) ==> (seq![x] + s).filter(p) == s.filter(p),
    decreases s.len(),
{
    reveal(Seq::filter);
    if s.len() == 0 {
        assert(seq![x] + s =~= seq![x]);
        crate::model::lemma_filter_push(Seq::<int>::empty(), p, x);
        assert(Seq::<int>::empty().push(x) =~= seq![x]);
        assert(Seq::<int>::empty().filter(p) =~= Seq::<int>::empty());
        if p(x) {
            assert(Seq::<int>::empty().filter(p).push(x) =~= seq![x]);
            assert((seq![x] + s).filter(p) =~= seq![x] + s.filter(p));
        } else {
            assert((seq![x] + s).filter(p) =~= s.filter(p));
        }
    } else {
        let rest = s.drop_last();
        seq_prepend_filter(x, rest, p);
        assert((seq![x] + s).drop_last() =~= seq![x] + rest);
        assert((seq![x] + s).last() == s.last());
        crate::model::lemma_filter_push(seq![x] + rest, p, s.last());
        assert((seq![x] + rest).push(s.last()) =~= seq![x] + s);
        crate::model::lemma_filter_push(rest, p, s.last());
        assert(rest.push(s.last()) =~= s);
        if p(x) {
            assert(seq![x] + rest.filter(p).push(s.last()) =~= (seq![x] + rest.filter(p)).push(
                s.last(),
            ));
        }
    }
}


impl Repository {
    /// The error every operation returns once the repository is poisoned.
    pub(crate) fn poisoned_err() -> (r: Error)
        ensures
            r is Internal,
    {
        Error::Internal(
            "the store failed during an earlier mutation; the repository is disabled".to_owned(),
        )
    }

    /// List the games, newest first.

    #[verifier::spinoff_prover]
       pub fn games(&self) -> (r: Result<Vec<Game>, Error>)
        requires
            self.wf(),
        ensures
            r matches Ok(v) ==> {
                &&& !self.poisoned
                &&& v@.len() == self.games_v().len()
                &&& forall|i: int|
                    0 <= i < v@.len() ==> (#[trigger] v@[i]).id.addr as int == self.games_v()[i]
                        && v@[i].id.live(self.st())
            },
            r matches Err(e) ==> e is Internal,
    {
        if self.poisoned {
            return Err(Self::poisoned_err());
        }
        let addrs = self.out_neighbors(self.roots.games)?;
        let mut out: Vec<Game> = Vec::new();
        let mut i: usize = 0;
        while i < addrs.len()
            invariant
                self.wf_state(),
                !self.poisoned,
                addrs@.map_values(crate::store::addr_int()) == self.games_v(),
                forall|j: int|
                    0 <= j < addrs@.len() ==> #[trigger] addrs@[j] > 0 && self.st().has_node(
                        addrs@[j] as int,
                    ),
                i <= addrs@.len(),
                out@.len() == i as int,
                forall|j: int|
                    0 <= j < i as int ==> (#[trigger] out@[j]).id.addr as int == self.games_v()[j]
                        && out@[j].id.live(self.st()),
            decreases addrs@.len() - i,
        {
            let a = addrs[i];
            proof {
                assert(addrs@.map_values(crate::store::addr_int())[i as int] == a as int);
            }
            let uid = match self.store.get_value(a, "uid") {
                GetValue::Found(FieldValue::U64(u)) => u,
                GetValue::Found(_) => {
                    return Err(Error::Internal("entity uid holds a non-integer".to_owned()));
                },
                GetValue::Missing => {
                    return Err(Error::Internal("entity uid is missing".to_owned()));
                },
                GetValue::Fault(m) => {
                    return Err(Error::Internal(m));
                },
            };
            out.push(Game { id: EntityId { addr: a, uid } });
            i = i + 1;
        }
        Ok(out)
    }

    /// The game carrying exactly this name, if any is listed.

    #[verifier::spinoff_prover]
       pub fn search_game(&self, name: &str) -> (r: Result<Option<Game>, Error>)
        requires
            self.wf(),
        ensures
            r matches Ok(o) ==> !self.poisoned && (match o {
                Some(game) => game.id.live(self.st()) && self.name_of(game.id.addr as int) == Some(
                    Val::Text(name@),
                ) && game_name_taken(*self, name@) && self.games_v().contains(game.id.addr as int),
                None => !game_name_taken(*self, name@),
            }),
            r matches Err(e) ==> e is Internal,
    {
        if self.poisoned {
            return Err(Self::poisoned_err());
        }
        let addrs = self.out_neighbors(self.roots.games)?;
        let mut i: usize = 0;
        while i < addrs.len()
            invariant
                self.wf_state(),
                !self.poisoned,
                addrs@.map_values(crate::store::addr_int()) == self.games_v(),
                forall|j: int|
                    0 <= j < addrs@.len() ==> #[trigger] addrs@[j] > 0 && self.st().has_node(
                        addrs@[j] as int,
                    ),
                i <= addrs@.len(),
                forall|j: int|
                    0 <= j < i as int ==> self.name_of(#[trigger] self.games_v()[j]) != Some(
                        Val::Text(name@),
                    ),
            decreases addrs@.len() - i,
        {
            let a = addrs[i];
            proof {
                assert(addrs@.map_values(crate::store::addr_int())[i as int] == a as int);
            }
            let gname = match self.store.get_value(a, "name") {
                GetValue::Found(FieldValue::Text(t)) => t,
                GetValue::Found(_) => {
                    return Err(Error::Internal("entity name holds a non-text value".to_owned()));
                },
                GetValue::Missing => {
                    return Err(Error::Internal("entity name is missing".to_owned()));
                },
                GetValue::Fault(m) => {
                    return Err(Error::Internal(m));
                },
            };
            if gname == name.to_owned() {
                let uid = match self.store.get_value(a, "uid") {
                    GetValue::Found(FieldValue::U64(u)) => u,
                    GetValue::Found(_) => {
                        return Err(Error::Internal("entity uid holds a non-integer".to_owned()));
                    },
                    GetValue::Missing => {
                        return Err(Error::Internal("entity uid is missing".to_owned()));
                    },
                    GetValue::Fault(m) => {
                        return Err(Error::Internal(m));
                    },
                };
                proof {
                    assert(self.games_v()[i as int] == a as int);
                    assert(gname@ == name@);
                    assert(self.st().field(a as int, "name"@) == Some(Val::Text(name@)));
                    assert(self.name_of(self.games_v()[i as int]) == Some(Val::Text(name@)));
                    assert(game_name_taken(*self, name@));
                    assert(self.games_v().contains(a as int));
                    assert((EntityId { addr: a, uid }).live(self.st()));
                }
                return Ok(Some(Game { id: EntityId { addr: a, uid } }));
            }
            i = i + 1;
        }
        Ok(None)
    }

    /// Add a game under a fresh name. The second call with a name already in
    /// the listing fails with `DuplicateName` and changes nothing; the first
    /// game stays untouched by later additions. When no game was active, the
    /// new game becomes active.

    #[verifier::spinoff_prover]
       pub fn add_game(&mut self, name: &str, deploy_kind: DeployKind) -> (r: Result<Game, Error>)
        requires
            old(self).wf(),
        ensures
            final(self).wf(),
            final(self).roots == old(self).roots,
            final(self).lib_dir == old(self).lib_dir,
            r matches Ok(game) ==> {
                &&& !old(self).poisoned && !final(self).poisoned
                &&& !game_name_taken(*old(self), name@)
                &&& game.id.addr > 0 && !old(self).st().has_node(game.id.addr as int)
                &&& game.id.live(final(self).st())
                &&& final(self).games_v() == seq![game.id.addr as int] + old(self).games_v()
                &&& final(self).name_of(game.id.addr as int) == Some(Val::Text(name@))
                &&& final(self).st().field(game.id.addr as int, "deploy_kind"@) == Some(
                    Val::U64(deploy_kind.code_spec()),
                )
                &&& final(self).st().field(game.id.addr as int, "targets"@) == Some(
                    Val::TextList(Seq::<Seq<char>>::empty()),
                )
                &&& (forall|b: int, k: Seq<char>|
                    b != game.id.addr as int && b != old(self).roots.counter as int ==> final(self).st().field(b, k) == old(self).st().field(b, k))
                &&& (forall|h: EntityId| h.live(old(self).st()) ==> h.live(final(self).st()))
                &&& final(self).actives_v() == (if old(self).actives_v().len() == 0 {
                    seq![game.id.addr as int]
                } else {
                    old(self).actives_v()
                })
                &&& (forall|g: int| final(self).profiles_v(g) == old(self).profiles_v(g))
                &&& (forall|g: int| final(self).mods_v(g) == old(self).mods_v(g))
                &&& final(self).chains == old(self).chains
                &&& final(self).fs@.len() == old(self).fs@.len() + 1
                &&& final(self).fs@.take(old(self).fs@.len() as int) == old(self).fs@
                &&& (final(self).fs@.last() matches FsOp::CreateDirAll(d) && d@ == game_dir_spec(
                    old(self).lib_dir@,
                    name@,
                ))
            },
            r matches Err(e) ==> (e is DuplicateName || e is Internal),
            r matches Err(e) && e is DuplicateName ==> game_name_taken(*old(self), name@)
                && !old(self).poisoned && *final(self) == *old(self),
            r is Err ==> final(self).games_v() == old(self).games_v() || final(self).poisoned,
    {
        if self.poisoned {
            return Err(Self::poisoned_err());
        }
        // Reject a name any listed game already carries.
        match self.search_game(name) {
            Ok(Some(_)) => {
                return Err(Error::DuplicateName);
            },
            Ok(None) => (),
            Err(e) => {
                return Err(e);
            },
        }
        proof {
            lemma_field_keys();
        }
        let created = match self.create_entity(KIND_GAME) {
            Ok(p) => p,
            Err(e) => {
                return Err(e);
            },
        };
        let addr = created.0;
        let uid = created.1;
        self.set_unlinked_field(addr, "name", &FieldValue::Text(name.to_owned()))?;
        self.set_unlinked_field(addr, "deploy_kind", &FieldValue::U64(deploy_kind.code()))?;
        let empty_targets: Vec<String> = Vec::new();
        proof {
            assert(empty_targets.deep_view() =~= Seq::<Seq<char>>::empty());
            lemma_field_keys();
        }
        self.set_unlinked_field(addr, "targets", &FieldValue::TextList(empty_targets))?;
        let actives = self.out_neighbors(self.roots.active_game)?;
        let activate = actives.len() == 0;
        let ghost base = *self;
        let ghost mut edge1 = GEdge { eid: 0, src: 0, dst: 0 };
        if activate {
            match self.store.new_edge(self.roots.active_game, addr) {
                Ok(eid) => {
                    proof {
                        edge1 = GEdge {
                            eid: eid as int,
                            src: base.roots.active_game as int,
                            dst: addr as int,
                        };
                    }
                },
                Err(f) => {
                    return Err(Error::Internal(f.message));
                },
            }
        }
        let eid2 = match self.store.new_edge(self.roots.games, addr) {
            Ok(e) => e,
            Err(f) => {
                if activate {
                    // The active pointer already moved: the state is torn.
                    self.poisoned = true;
                }
                return Err(Error::Internal(f.message));
            },
        };
        proof {
            assert(base.actives_v().len() == 0 ==> base.actives_v() =~= Seq::<int>::empty());
            lemma_wf_link_game(
                base,
                *self,
                addr as int,
                activate,
                edge1,
                GEdge { eid: eid2 as int, src: base.roots.games as int, dst: addr as int },
            );
        }
        let ghost linked = *self;
        let dir = game_dir_str(self.lib_dir.as_str(), name);
        let ghost fs0 = self.fs@;
        self.fs.push(FsOp::CreateDirAll(dir));
        proof {
            assert(self.fs@.take(fs0.len() as int) =~= fs0);
            crate::repo::lemma_wf_same_store(linked, *self);
            assert forall|h: EntityId| h.live(old(self).st()) implies h.live(self.st()) by {
                assert(old(self).st().has_node(h.addr as int));
                if h.addr as int == old(self).roots.counter as int {
                    assert(self.st().field(h.addr as int, "uid"@) == old(self).st().field(
                        h.addr as int,
                        "uid"@,
                    ));
                } else {
                    assert(h.addr as int != addr as int);
                }
            }
        }
        Ok(Game { id: EntityId { addr, uid } })
    }
}


impl Game {
    /// The game's display name.

    #[verifier::spinoff_prover]
       pub fn name(&self, repo: &Repository) -> (r: Result<String, Error>)
        requires
            repo.wf(),
        ensures
            r matches Ok(t) ==> !repo.poisoned && self.id.live(repo.st()) && repo.name_of(
                self.id.addr as int,
            ) == Some(Val::Text(t@)),
            r matches Err(e) ==> e is RemovedEntity || e is Internal,
            r matches Err(e) && e is RemovedEntity ==> !self.id.live(repo.st()),
    {
        if repo.poisoned {
            return Err(Repository::poisoned_err());
        }
        get_text(&repo.store, self.id, "name")
    }

    /// The game's deploy kind.

    #[verifier::spinoff_prover]
       pub fn deploy_kind(&self, repo: &Repository) -> (r: Result<DeployKind, Error>)
        requires
            repo.wf(),
        ensures
            r matches Ok(k) ==> !repo.poisoned && self.id.live(repo.st()) && repo.st().field(
                self.id.addr as int,
                "deploy_kind"@,
            ) == Some(Val::U64(k.code_spec())),
            r matches Err(e) ==> e is RemovedEntity || e is Internal,
            r matches Err(e) && e is RemovedEntity ==> !self.id.live(repo.st()),
    {
        if repo.poisoned {
            return Err(Repository::poisoned_err());
        }
        let code = get_u64(&repo.store, self.id, "deploy_kind")?;
        match DeployKind::from_code(code) {
            Some(k) => Ok(k),
            None => Err(Error::Internal("stored deploy kind is out of range".to_owned())),
        }
    }

    /// The game's target paths.

    #[verifier::spinoff_prover]
       pub fn targets(&self, repo: &Repository) -> (r: Result<Vec<String>, Error>)
        requires
            repo.wf(),
        ensures
            r matches Ok(v) ==> !repo.poisoned && self.id.live(repo.st()) && repo.st().field(
                self.id.addr as int,
                "targets"@,
            ) == Some(Val::TextList(v.deep_view())),
            r matches Err(e) ==> e is RemovedEntity || e is Internal,
            r matches Err(e) && e is RemovedEntity ==> !self.id.live(repo.st()),
    {
        if repo.poisoned {
            return Err(Repository::poisoned_err());
        }
        get_text_list(&repo.store, self.id, "targets")
    }

    /// The game's library directory path.

    #[verifier::spinoff_prover]
       pub fn dir(&self, repo: &Repository) -> (r: Result<String, Error>)
        requires
            repo.wf(),
        ensures
            r matches Ok(d) ==> !repo.poisoned && self.id.live(repo.st()) && (repo.name_of(
                self.id.addr as int,
            ) matches Some(v) && v matches Val::Text(n) && d@ == game_dir_spec(repo.lib_dir@, n)),
            r matches Err(e) ==> e is RemovedEntity || e is Internal,
            r matches Err(e) && e is RemovedEntity ==> !self.id.live(repo.st()),
    {
        let n = self.name(repo)?;
        Ok(game_dir_str(repo.lib_dir.as_str(), n.as_str()))
    }

    /// Rename the game: a no-op when the name is unchanged, otherwise the
    /// field is updated and a directory rename is queued.

    #[verifier::spinoff_prover]
       pub fn set_name(&self, repo: &mut Repository, new_name: &str) -> (r: Result<(), Error>)
        requires
            old(repo).wf(),
        ensures
            final(repo).wf(),
            final(repo).roots == old(repo).roots,
            final(repo).lib_dir == old(repo).lib_dir,
            final(repo).chains == old(repo).chains,
            final(repo).poisoned == old(repo).poisoned,
            r is Ok ==> {
                &&& !old(repo).poisoned
                &&& self.id.live(old(repo).st())
                &&& final(repo).name_of(self.id.addr as int) == Some(Val::Text(new_name@))
                &&& final(repo).games_v() == old(repo).games_v()
                &&& final(repo).actives_v() == old(repo).actives_v()
                &&& final(repo).active_ps_v() == old(repo).active_ps_v()
                &&& (forall|g: int| final(repo).profiles_v(g) == old(repo).profiles_v(g))
                &&& (forall|g: int| final(repo).mods_v(g) == old(repo).mods_v(g))
                &&& (forall|b: int, k: Seq<char>|
                    b != self.id.addr as int ==> final(repo).st().field(b, k) == old(repo).st().field(b, k))
                &&& (forall|k: Seq<char>|
                    k != "name"@ ==> final(repo).st().field(self.id.addr as int, k) == old(repo).st().field(self.id.addr as int, k))
                &&& (old(repo).name_of(self.id.addr as int) == Some(Val::Text(new_name@))
                    ==> *final(repo) == *old(repo))
                &&& (old(repo).name_of(self.id.addr as int) != Some(Val::Text(new_name@)) ==> {
                    &&& final(repo).fs@.len() == old(repo).fs@.len() + 1
                    &&& final(repo).fs@.take(old(repo).fs@.len() as int) == old(repo).fs@
                    &&& (final(repo).fs@.last() matches FsOp::Rename(d0, d1) && (old(repo).name_of(
                        self.id.addr as int,
                    ) matches Some(v) && v matches Val::Text(n0) && d0@ == game_dir_spec(
                        old(repo).lib_dir@,
                        n0,
                    )) && d1@ == game_dir_spec(old(repo).lib_dir@, new_name@))
                })
            },
            r matches Err(e) ==> e is RemovedEntity || e is Internal,
            r matches Err(e) && e is RemovedEntity ==> !self.id.live(old(repo).st()),
            r is Err ==> final(repo).st().nodes() == old(repo).st().nodes() && final(repo).st().edges() == old(repo).st().edges(),
    {
        if repo.poisoned {
            return Err(Repository::poisoned_err());
        }
        let current = get_text(&repo.store, self.id, "name")?;
        if current == new_name.to_owned() {
            return Ok(());
        }
        let old_dir = game_dir_str(repo.lib_dir.as_str(), current.as_str());
        let new_dir = game_dir_str(repo.lib_dir.as_str(), new_name);
        let ghost pre = *repo;
        match crate::ids::set_field(
            &mut repo.store,
            self.id,
            "name",
            &FieldValue::Text(new_name.to_owned()),
        ) {
            Ok(()) => (),
            Err(e) => {
                proof {
                    crate::repo::lemma_wf_same_store_views(pre, *repo);
                }
                return Err(e);
            },
        }
        proof {
            lemma_field_keys();
            crate::repo::lemma_wf_entity_field(pre, *repo, self.id.addr as int);
        }
        let ghost mid = *repo;
        repo.fs.push(FsOp::Rename(old_dir, new_dir));
        proof {
            crate::repo::lemma_wf_same_store(mid, *repo);
        }
        Ok(())
    }

    /// Change the game's deploy kind; a no-op when unchanged.

    #[verifier::spinoff_prover]
       pub fn set_deploy_kind(&self, repo: &mut Repository, new_kind: DeployKind) -> (r: Result<
        (),
        Error,
    >)
        requires
            old(repo).wf(),
        ensures
            final(repo).wf(),
            final(repo).roots == old(repo).roots,
            final(repo).lib_dir == old(repo).lib_dir,
            final(repo).chains == old(repo).chains,
            final(repo).poisoned == old(repo).poisoned,
            final(repo).fs == old(repo).fs,
            r is Ok ==> {
                &&& !old(repo).poisoned
                &&& self.id.live(old(repo).st())
                &&& final(repo).st().field(self.id.addr as int, "deploy_kind"@) == Some(
                    Val::U64(new_kind.code_spec()),
                )
                &&& final(repo).games_v() == old(repo).games_v()
                &&& (forall|b: int, k: Seq<char>|
                    b != self.id.addr as int ==> final(repo).st().field(b, k) == old(repo).st().field(b, k))
                &&& (forall|k: Seq<char>|
                    k != "deploy_kind"@ ==> final(repo).st().field(self.id.addr as int, k) == old(repo).st().field(self.id.addr as int, k))
            },
            r matches Err(e) ==> e is RemovedEntity || e is Internal,
            r matches Err(e) && e is RemovedEntity ==> !self.id.live(old(repo).st()),
    {
        if repo.poisoned {
            return Err(Repository::poisoned_err());
        }
        let current = get_u64(&repo.store, self.id, "deploy_kind")?;
        let code = new_kind.code();
        if current == code {
            proof {
                lemma_field_keys();
            }
            return Ok(());
        }
        let ghost pre = *repo;
        match crate::ids::set_field(&mut repo.store, self.id, "deploy_kind", &FieldValue::U64(code))
            {
            Ok(()) => (),
            Err(e) => {
                proof {
                    crate::repo::lemma_wf_same_store_views(pre, *repo);
                }
                return Err(e);
            },
        }
        proof {
            lemma_field_keys();
            crate::repo::lemma_wf_entity_field(pre, *repo, self.id.addr as int);
        }
        Ok(())
    }
}


impl Game {
    /// Remove this game: every profile (with its entries) and every mod is
    /// removed first, then the game node; when this game was active, the
    /// first remaining game is promoted. The directory tree is queued for
    /// deletion.

    #[verifier::spinoff_prover]
       pub fn remove(self, repo: &mut Repository) -> (r: Result<(), Error>)
        requires
            old(repo).wf(),
        ensures
            final(repo).wf(),
            final(repo).roots == old(repo).roots,
            final(repo).lib_dir == old(repo).lib_dir,
            r is Ok ==> {
                &&& !old(repo).poisoned && !final(repo).poisoned
                &&& self.id.live(old(repo).st())
                &&& old(repo).games_v().contains(self.id.addr as int)
                &&& !final(repo).st().has_node(self.id.addr as int)
                &&& final(repo).games_v() == old(repo).games_v().filter(
                    crate::store::ne_addr(self.id.addr as int),
                )
                &&& (forall|j: int|
                    0 <= j < old(repo).profiles_v(self.id.addr as int).len() ==> !final(repo).st().has_node(#[trigger] old(repo).profiles_v(self.id.addr as int)[j]))
                &&& (forall|j: int|
                    0 <= j < old(repo).mods_v(self.id.addr as int).len() ==> !final(repo).st().has_node(#[trigger] old(repo).mods_v(self.id.addr as int)[j]))
                &&& (!old(repo).actives_v().contains(self.id.addr as int) ==> final(repo).actives_v() == old(repo).actives_v())
                &&& (old(repo).actives_v().contains(self.id.addr as int) ==> final(repo).actives_v() == (if old(repo).games_v().filter(
                    crate::store::ne_addr(self.id.addr as int),
                ).len() == 0 {
                    Seq::<int>::empty()
                } else {
                    seq![
                        old(repo).games_v().filter(
                            crate::store::ne_addr(self.id.addr as int),
                        )[0],
                    ]
                }))
                &&& (forall|g2: int|
                    final(repo).games_v().contains(g2) ==> final(repo).profiles_v(g2) == old(
                        repo,
                    ).profiles_v(g2) && final(repo).mods_v(g2) == old(repo).mods_v(g2))
                &&& final(repo).fs@.len() >= old(repo).fs@.len() + 1
                &&& final(repo).fs@.take(old(repo).fs@.len() as int) == old(repo).fs@
                &&& (final(repo).fs@.last() matches FsOp::RemoveDirAll(d) && (old(repo).name_of(
                    self.id.addr as int,
                ) matches Some(v) && v matches Val::Text(n) && d@ == game_dir_spec(
                    old(repo).lib_dir@,
                    n,
                )))
                &&& final(repo).counter_of() == old(repo).counter_of()
            },
            r matches Err(e) ==> e is RemovedEntity || e is Internal,
            r matches Err(e) && e is RemovedEntity ==> (!self.id.live(old(repo).st()) || !old(repo).games_v().contains(self.id.addr as int)) && *final(repo) == *old(repo),
    {
        if repo.poisoned {
            return Err(Repository::poisoned_err());
        }
        let dir = self.dir(repo)?;
        let g = self.id.resolve(&repo.store)?;
        let listed = repo.out_neighbors(repo.roots.games)?;
        let mut li: usize = 0;
        let mut found: bool = false;
        while li < listed.len()
            invariant
                *repo == *old(repo),
                repo.wf_state(),
                !repo.poisoned,
                g == self.id.addr,
                listed@.map_values(crate::store::addr_int()) == repo.games_v(),
                li <= listed@.len(),
                found ==> repo.games_v().contains(g as int),
                !found ==> forall|j: int| 0 <= j < li as int ==> repo.games_v()[j] != g as int,
            decreases listed@.len() - li,
        {
            if listed[li] == g {
                proof {
                    assert(listed@.map_values(crate::store::addr_int())[li as int] == g as int);
                }
                found = true;
            }
            li = li + 1;
        }
        if !found {
            return Err(Error::RemovedEntity);
        }
        // Was this the active game?
        let actives = repo.out_neighbors(repo.roots.active_game)?;
        let mut ai: usize = 0;
        let mut was_active: bool = false;
        while ai < actives.len()
            invariant
                *repo == *old(repo),
                repo.wf_state(),
                !repo.poisoned,
                g == self.id.addr,
                actives@.map_values(crate::store::addr_int()) == repo.actives_v(),
                ai <= actives@.len(),
                was_active ==> repo.actives_v().contains(g as int),
                !was_active ==> forall|j: int| 0 <= j < ai as int ==> repo.actives_v()[j] != g as int,
            decreases actives@.len() - ai,
        {
            if actives[ai] == g {
                proof {
                    assert(actives@.map_values(crate::store::addr_int())[ai as int] == g as int);
                }
                was_active = true;
            }
            ai = ai + 1;
        }
        let ghost pre = *repo;
        // Remove every profile, tolerating one that already reads as removed.
        let ps = self.profiles(repo)?;
        let ghost porig = repo.profiles_v(g as int);
        let mut i: usize = 0;
        while i < ps.len()
            invariant
                pre == *old(repo),
                repo.wf(),
                repo.wf() ==> repo.wf_state() || repo.poisoned,
                !repo.poisoned,
                repo.wf_state(),
                repo.roots == pre.roots,
                repo.lib_dir == pre.lib_dir,
                g == self.id.addr,
                g > 0,
                i <= ps@.len(),
                ps@.len() == porig.len(),
                porig.no_duplicates(),
                forall|j: int|
                    0 <= j < ps@.len() ==> (#[trigger] ps@[j]).id.addr as int == porig[j],
                repo.games_v() == pre.games_v(),
                repo.games_v().contains(g as int),
                repo.profiles_v(g as int) == porig.skip(i as int),
                repo.counter_of() == pre.counter_of(),
                repo.fs@.len() >= pre.fs@.len(),
                repo.fs@.take(pre.fs@.len() as int) == pre.fs@,
                forall|j: int| 0 <= j < i as int ==> !repo.st().has_node(#[trigger] porig[j]),
                forall|j: int|
                    i as int <= j < porig.len() ==> (#[trigger] ps@[j]).id.live(repo.st()),
                repo.actives_v() == pre.actives_v(),
                forall|g2: int|
                    repo.games_v().contains(g2) && g2 != g as int ==> #[trigger] repo.profiles_v(g2)
                        == pre.profiles_v(g2),
                forall|g2: int|
                    repo.games_v().contains(g2) ==> #[trigger] repo.mods_v(g2) == pre.mods_v(g2),
                self.id.live(repo.st()),
            decreases ps@.len() - i,
        {
            let p = ps[i];
            let ghost step = *repo;
            proof {
                assert(ps@[i as int].id.addr as int == porig[i as int]);
                assert(repo.profiles_v(g as int)[0] == porig[i as int]) by {
                    assert(porig.skip(i as int)[0] == porig[i as int]);
                }
                assert(repo.profiles_v(g as int).contains(p.id.addr as int));
                assert(repo.is_profile(p.id.addr as int));
            }
            match p.remove(repo) {
                Ok(()) => (),
                Err(Error::RemovedEntity) => {
                    proof {
                        assert(false);
                    }
                },
                Err(e) => {
                    return Err(e);
                },
            }
            proof {
                assert(repo.profiles_v(g as int) == step.profiles_v(g as int).filter(
                    crate::store::ne_addr(p.id.addr as int),
                )) by {
                    assert(g as int != p.id.addr as int) by {
                        assert(step.game_ok(g as int)) by {
                            let k = choose|k: int|
                                0 <= k < step.games_v().len() && step.games_v()[k] == g as int;
                        }
                        lemma_profile_not_root_pub(step, p.id.addr as int);
                    }
                    assert(!step.chains@[p.id.addr as int].contains(g as int)) by {
                        if step.chains@[p.id.addr as int].contains(g as int) {
                            assert(step.chain_ok(p.id.addr as int, step.chains@[p.id.addr as int]));
                            let jx = choose|jx: int|
                                0 <= jx < step.chains@[p.id.addr as int].len()
                                    && step.chains@[p.id.addr as int][jx] == g as int;
                            assert(step.entry_ok(g as int));
                            assert(step.game_ok(g as int)) by {
                                let k = choose|k: int|
                                    0 <= k < step.games_v().len() && step.games_v()[k] == g as int;
                            }
                        }
                    }
                    assert(g as int != step.roots.active_profile as int) by {
                        assert(step.game_ok(g as int)) by {
                            let k = choose|k: int|
                                0 <= k < step.games_v().len() && step.games_v()[k] == g as int;
                        }
                        assert(step.st().field(step.roots.active_profile as int, "kind"@) is None);
                    }
                }
                crate::model::lemma_filter_drop_head(porig.skip(i as int), porig[i as int]);
                assert(porig.skip(i as int).subrange(1, porig.skip(i as int).len() as int)
                    =~= porig.skip(i as int + 1));
                assert(porig.skip(i as int).no_duplicates()) by {
                    assert forall|a2: int, b2: int|
                        0 <= a2 < porig.skip(i as int).len() && 0 <= b2 < porig.skip(
                            i as int,
                        ).len() && a2 != b2 implies porig.skip(i as int)[a2] != porig.skip(
                        i as int,
                    )[b2] by {
                        assert(porig.skip(i as int)[a2] == porig[a2 + i as int]);
                        assert(porig.skip(i as int)[b2] == porig[b2 + i as int]);
                    }
                }
                assert forall|j: int| 0 <= j < i as int + 1 implies !repo.st().has_node(
                    #[trigger] porig[j],
                ) by {
                    if j < i as int {
                        assert(!step.st().has_node(porig[j]));
                        assert(!repo.st().has_node(porig[j]));
                    } else {
                        assert(porig[j] == p.id.addr as int);
                        assert(!repo.st().has_node(p.id.addr as int));
                    }
                }
                assert(repo.fs@.take(pre.fs@.len() as int) =~= pre.fs@) by {
                    assert(repo.fs@.take(step.fs@.len() as int) == step.fs@);
                    assert forall|j: int| 0 <= j < pre.fs@.len() implies repo.fs@[j]
                        == pre.fs@[j] by {
                        assert(repo.fs@.take(step.fs@.len() as int)[j] == step.fs@[j]);
                        assert(step.fs@.take(pre.fs@.len() as int)[j] == pre.fs@[j]);
                    }
                }
                assert forall|g2: int|
                    repo.games_v().contains(g2) && g2 != g as int implies #[trigger] repo.profiles_v(
                    g2,
                ) == pre.profiles_v(g2) by {
                    let k = choose|k: int|
                        0 <= k < step.games_v().len() && step.games_v()[k] == g2;
                    assert(step.game_ok(g2));
                    assert(g2 != p.id.addr as int) by {
                        crate::profile::lemma_profile_not_root_pub2(step, p.id.addr as int);
                    }
                    assert(!step.chains@[p.id.addr as int].contains(g2)) by {
                        if step.chains@[p.id.addr as int].contains(g2) {
                            assert(step.chain_ok(p.id.addr as int, step.chains@[p.id.addr as int]));
                            let jx = choose|jx: int|
                                0 <= jx < step.chains@[p.id.addr as int].len()
                                    && step.chains@[p.id.addr as int][jx] == g2;
                            assert(step.entry_ok(g2));
                        }
                    }
                    assert(g2 != step.roots.active_profile as int) by {
                        assert(step.st().field(step.roots.active_profile as int, "kind"@) is None);
                    }
                    assert(repo.profiles_v(g2) == step.profiles_v(g2).filter(
                        crate::store::ne_addr(p.id.addr as int),
                    ));
                    assert forall|jx: int| 0 <= jx < step.profiles_v(g2).len() implies crate::store::ne_addr(
                        p.id.addr as int,
                    )(#[trigger] step.profiles_v(g2)[jx]) by {
                        assert(step.profiles_v(g2).contains(step.profiles_v(g2)[jx]));
                        if step.profiles_v(g2)[jx] == p.id.addr as int {
                            assert(step.profiles_v(g as int).contains(p.id.addr as int)) by {
                                assert(porig.skip(i as int)[0] == porig[i as int]);
                            }
                            let ka = choose|ka: int|
                                0 <= ka < step.games_v().len() && step.games_v()[ka] == g2;
                            let kb = choose|kb: int|
                                0 <= kb < step.games_v().len() && step.games_v()[kb] == g as int;
                            assert(false);
                        }
                    }
                    crate::model::lemma_filter_all(
                        step.profiles_v(g2),
                        crate::store::ne_addr(p.id.addr as int),
                    );
                }
                assert forall|g2: int| repo.games_v().contains(g2) implies #[trigger] repo.mods_v(
                    g2,
                ) == pre.mods_v(g2) by {
                    let k = choose|k: int|
                        0 <= k < step.games_v().len() && step.games_v()[k] == g2;
                    assert(step.game_ok(g2));
                    assert(g2 != p.id.addr as int) by {
                        crate::profile::lemma_profile_not_root_pub2(step, p.id.addr as int);
                    }
                    assert(!step.chains@[p.id.addr as int].contains(g2)) by {
                        if step.chains@[p.id.addr as int].contains(g2) {
                            assert(step.chain_ok(p.id.addr as int, step.chains@[p.id.addr as int]));
                            let jx = choose|jx: int|
                                0 <= jx < step.chains@[p.id.addr as int].len()
                                    && step.chains@[p.id.addr as int][jx] == g2;
                            assert(step.entry_ok(g2));
                        }
                    }
                    assert(repo.mods_v(g2) == step.mods_v(g2));
                }
                assert forall|j: int|
                    i as int + 1 <= j < porig.len() implies (#[trigger] ps@[j]).id.live(
                    repo.st(),
                ) by {
                    assert(ps@[j].id.live(step.st()));
                    assert(porig[j] != p.id.addr as int);
                    assert(!step.chains@[p.id.addr as int].contains(porig[j])) by {
                        assert(step.profiles_v(g as int).contains(porig[j])) by {
                            assert(porig.skip(i as int)[j - i as int] == porig[j]);
                        }
                        assert(step.is_profile(porig[j]));
                        crate::profile::lemma_profile_not_root_pub2(step, porig[j]);
                        if step.chains@[p.id.addr as int].contains(porig[j]) {
                            assert(step.chain_ok(
                                p.id.addr as int,
                                step.chains@[p.id.addr as int],
                            ));
                            let jx = choose|jx: int|
                                0 <= jx < step.chains@[p.id.addr as int].len()
                                    && step.chains@[p.id.addr as int][jx] == porig[j];
                            assert(step.entry_ok(porig[j]));
                        }
                    }
                }
            }
            i = i + 1;
        }
        proof {
            assert(repo.profiles_v(g as int) =~= porig.skip(porig.len() as int));
            assert(repo.profiles_v(g as int) =~= Seq::<int>::empty());
        }
        // Remove every mod the same way.
        let ms = self.mods(repo)?;
        let ghost after_ps = *repo;
        let ghost morig = repo.mods_v(g as int);
        let mut mi: usize = 0;
        while mi < ms.len()
            invariant
                pre == *old(repo),
                repo.wf_state(),
                !repo.poisoned,
                repo.roots == pre.roots,
                repo.lib_dir == pre.lib_dir,
                g == self.id.addr,
                g > 0,
                mi <= ms@.len(),
                ms@.len() == morig.len(),
                morig.no_duplicates(),
                forall|j: int|
                    0 <= j < ms@.len() ==> (#[trigger] ms@[j]).id.addr as int == morig[j],
                repo.games_v() == pre.games_v(),
                repo.games_v().contains(g as int),
                repo.profiles_v(g as int) == Seq::<int>::empty(),
                repo.mods_v(g as int) == morig.skip(mi as int),
                repo.counter_of() == pre.counter_of(),
                repo.fs@.len() >= pre.fs@.len(),
                repo.fs@.take(pre.fs@.len() as int) == pre.fs@,
                forall|g2: int|
                    repo.games_v().contains(g2) && g2 != g as int ==> #[trigger] repo.profiles_v(g2)
                        == pre.profiles_v(g2),
                forall|g2: int|
                    repo.games_v().contains(g2) && g2 != g as int ==> #[trigger] repo.mods_v(g2)
                        == pre.mods_v(g2),
                forall|j: int| 0 <= j < mi as int ==> !repo.st().has_node(#[trigger] morig[j]),
                forall|j: int|
                    mi as int <= j < morig.len() ==> (#[trigger] ms@[j]).id.live(repo.st()),
                forall|j: int|
                    0 <= j < porig.len() ==> !repo.st().has_node(#[trigger] porig[j]),
                repo.actives_v() == pre.actives_v(),
                repo.chains == after_ps.chains,
                self.id.live(repo.st()),
            decreases ms@.len() - mi,
        {
            let m = ms[mi];
            let ghost step = *repo;
            proof {
                assert(ms@[mi as int].id.addr as int == morig[mi as int]);
                assert(repo.mods_v(g as int)[0] == morig[mi as int]) by {
                    assert(morig.skip(mi as int)[0] == morig[mi as int]);
                }
                assert(repo.mods_v(g as int).contains(m.id.addr as int));
            }
            match m.remove(repo) {
                Ok(()) => (),
                Err(Error::RemovedEntity) => {
                    proof {
                        assert(false);
                    }
                },
                Err(e) => {
                    return Err(e);
                },
            }
            proof {
                assert(g as int != m.id.addr as int) by {
                    assert(step.game_ok(g as int)) by {
                        let k = choose|k: int|
                            0 <= k < step.games_v().len() && step.games_v()[k] == g as int;
                    }
                    assert(step.mods_v(g as int).contains(m.id.addr as int));
                    crate::model::lemma_filter_sub(
                        step.st().neis(g as int),
                        kind_pred(step.st(), KIND_MOD),
                    );
                    let kk = choose|kk: int|
                        0 <= kk < step.mods_v(g as int).len() && step.mods_v(g as int)[kk]
                            == m.id.addr as int;
                    assert(step.mod_ok(m.id.addr as int));
                }
                crate::model::lemma_filter_drop_head(morig.skip(mi as int), morig[mi as int]);
                assert(morig.skip(mi as int).subrange(1, morig.skip(mi as int).len() as int)
                    =~= morig.skip(mi as int + 1));
                assert(morig.skip(mi as int).no_duplicates()) by {
                    assert forall|a2: int, b2: int|
                        0 <= a2 < morig.skip(mi as int).len() && 0 <= b2 < morig.skip(
                            mi as int,
                        ).len() && a2 != b2 implies morig.skip(mi as int)[a2] != morig.skip(
                        mi as int,
                    )[b2] by {
                        assert(morig.skip(mi as int)[a2] == morig[a2 + mi as int]);
                        assert(morig.skip(mi as int)[b2] == morig[b2 + mi as int]);
                    }
                }
                assert(repo.profiles_v(g as int) =~= Seq::<int>::empty()) by {
                    assert(repo.profiles_v(g as int) == step.profiles_v(g as int).filter(
                        crate::store::ne_addr(m.id.addr as int),
                    ));
                    crate::model::lemma_filter_all(
                        step.profiles_v(g as int),
                        crate::store::ne_addr(m.id.addr as int),
                    );
                }
                assert forall|j: int| 0 <= j < mi as int + 1 implies !repo.st().has_node(
                    #[trigger] morig[j],
                ) by {
                    if j < mi as int {
                        assert(!step.st().has_node(morig[j]));
                    }
                }
                assert forall|j: int| 0 <= j < porig.len() implies !repo.st().has_node(
                    #[trigger] porig[j],
                ) by {
                    assert(!step.st().has_node(porig[j]));
                }
                assert forall|j: int|
                    mi as int + 1 <= j < morig.len() implies (#[trigger] ms@[j]).id.live(
                    repo.st(),
                ) by {
                    assert(ms@[j].id.live(step.st()));
                    assert(morig[j] != m.id.addr as int);
                    assert(repo.st().field(morig[j], "uid"@) == step.st().field(
                        morig[j],
                        "uid"@,
                    ));
                }
                assert forall|g2: int|
                    repo.games_v().contains(g2) && g2 != g as int implies #[trigger] repo.profiles_v(
                    g2,
                ) == pre.profiles_v(g2) && repo.mods_v(g2) == pre.mods_v(g2) by {
                    let k = choose|k: int|
                        0 <= k < step.games_v().len() && step.games_v()[k] == g2;
                    assert(step.game_ok(g2));
                    assert(g2 != m.id.addr as int) by {
                        assert(step.mods_v(g as int).contains(m.id.addr as int)) by {
                            assert(morig.skip(mi as int)[0] == morig[mi as int]);
                        }
                        crate::model::lemma_filter_sub(
                            step.st().neis(g as int),
                            kind_pred(step.st(), KIND_MOD),
                        );
                        let kk = choose|kk: int|
                            0 <= kk < step.mods_v(g as int).len() && step.mods_v(g as int)[kk]
                                == m.id.addr as int;
                        assert(step.mod_ok(m.id.addr as int));
                    }
                    assert(repo.profiles_v(g2) == step.profiles_v(g2));
                    assert(repo.mods_v(g2) == step.mods_v(g2).filter(
                        crate::store::ne_addr(m.id.addr as int),
                    ));
                    assert forall|jx: int| 0 <= jx < step.mods_v(g2).len() implies crate::store::ne_addr(
                        m.id.addr as int,
                    )(#[trigger] step.mods_v(g2)[jx]) by {
                        assert(step.mods_v(g2).contains(step.mods_v(g2)[jx]));
                        if step.mods_v(g2)[jx] == m.id.addr as int {
                            assert(step.mods_v(g as int).contains(m.id.addr as int)) by {
                                assert(morig.skip(mi as int)[0] == morig[mi as int]);
                            }
                            let ka = choose|ka: int|
                                0 <= ka < step.games_v().len() && step.games_v()[ka] == g2;
                            let kb = choose|kb: int|
                                0 <= kb < step.games_v().len() && step.games_v()[kb] == g as int;
                            assert(false);
                        }
                    }
                    crate::model::lemma_filter_all(
                        step.mods_v(g2),
                        crate::store::ne_addr(m.id.addr as int),
                    );
                }
                assert(repo.fs@.take(pre.fs@.len() as int) =~= pre.fs@) by {
                    assert(repo.fs@.take(step.fs@.len() as int) == step.fs@);
                    assert forall|j: int| 0 <= j < pre.fs@.len() implies repo.fs@[j]
                        == pre.fs@[j] by {
                        assert(repo.fs@.take(step.fs@.len() as int)[j] == step.fs@[j]);
                        assert(step.fs@.take(pre.fs@.len() as int)[j] == pre.fs@[j]);
                    }
                }
            }
            mi = mi + 1;
        }
        proof {
            assert(repo.mods_v(g as int) =~= morig.skip(morig.len() as int));
            assert(repo.mods_v(g as int) =~= Seq::<int>::empty());
        }
        // Remove the game node itself.
        let ghost before_g = *repo;
        proof {
            assert(repo.game_ok(g as int)) by {
                let k = choose|k: int|
                    0 <= k < repo.games_v().len() && repo.games_v()[k] == g as int;
            }
            assert(!repo.chains@.dom().contains(g as int)) by {
                if repo.chains@.dom().contains(g as int) {
                    assert(repo.is_profile(g as int));
                    crate::profile::lemma_profile_not_root_pub2(*repo, g as int);
                }
            }
            assert forall|q: int| #[trigger] repo.chains@.dom().contains(q) implies !repo.chains@[q].contains(
                g as int,
            ) by {
                if repo.chains@[q].contains(g as int) {
                    assert(repo.chain_ok(q, repo.chains@[q]));
                    let jx = choose|jx: int|
                        0 <= jx < repo.chains@[q].len() && repo.chains@[q][jx] == g as int;
                    assert(repo.entry_ok(g as int));
                }
            }
        }
        match repo.store.remove_element(g) {
            Ok(_) => (),
            Err(f) => {
                proof {
                    crate::repo::lemma_wf_same_store_views(before_g, *repo);
                }
                return Err(Error::Internal(f.message));
            },
        }
        proof {
            crate::repo::lemma_wf_remove_node(
                before_g,
                *repo,
                g as int,
                crate::repo::ChainsMode::Untouched,
            );
        }
        let ghost after_g = *repo;
        // Promote the first remaining game when this one was active.
        let ghost filtered = pre.games_v().filter(crate::store::ne_addr(g as int));
        if was_active {
            let remaining = repo.out_neighbors(repo.roots.games)?;
            proof {
                assert(remaining@.map_values(crate::store::addr_int()) == repo.games_v());
                assert(repo.games_v() == filtered);
            }
            if remaining.len() > 0 {
                let first = remaining[0];
                let ghost before_e = *repo;
                proof {
                    assert(remaining@.map_values(crate::store::addr_int())[0] == first as int);
                    assert(repo.games_v()[0] == first as int);
                    assert(repo.games_v().contains(first as int));
                    assert(repo.actives_v() =~= Seq::<int>::empty()) by {
                        assert(repo.actives_v() == pre.actives_v().filter(
                            crate::store::ne_addr(g as int),
                        ));
                        assert(pre.actives_v().contains(g as int));
                        assert(pre.actives_v().len() <= 1);
                        let k = choose|k: int|
                            0 <= k < pre.actives_v().len() && pre.actives_v()[k] == g as int;
                        assert(pre.actives_v() =~= seq![g as int]);
                        crate::model::lemma_filter_push(
                            Seq::<int>::empty(),
                            crate::store::ne_addr(g as int),
                            g as int,
                        );
                        assert(Seq::<int>::empty().push(g as int) =~= seq![g as int]);
                        assert(Seq::<int>::empty().filter(crate::store::ne_addr(g as int))
                            =~= Seq::<int>::empty());
                    }
                }
                match repo.store.new_edge(repo.roots.active_game, first) {
                    Ok(eid) => {
                        proof {
                            crate::profile::lemma_wf_point_active(
                                before_e,
                                *repo,
                                first as int,
                                GEdge {
                                    eid: eid as int,
                                    src: before_e.roots.active_game as int,
                                    dst: first as int,
                                },
                                false,
                            );
                            assert(repo.actives_v() =~= seq![filtered[0]]) by {
                                assert(first as int == filtered[0]);
                            }
                        }
                    },
                    Err(f) => {
                        proof {
                            crate::repo::lemma_wf_same_store_views(before_e, *repo);
                        }
                        return Err(Error::Internal(f.message));
                    },
                }
            }
        }
        let ghost done = *repo;
        repo.fs.push(FsOp::RemoveDirAll(dir));
        proof {
            crate::repo::lemma_wf_same_store(done, *repo);
            assert(repo.st() == done.st());
            assert forall|g2: int| repo.games_v().contains(g2) implies #[trigger] repo.profiles_v(
                g2,
            ) == pre.profiles_v(g2) && repo.mods_v(g2) == pre.mods_v(g2) by {
                assert(after_g.games_v().contains(g2)) by {
                    assert(repo.games_v() == after_g.games_v());
                }
                crate::model::lemma_filter_sub(
                    before_g.games_v(),
                    crate::store::ne_addr(g as int),
                );
                let k = choose|k: int|
                    0 <= k < after_g.games_v().len() && after_g.games_v()[k] == g2;
                assert(before_g.games_v().contains(g2) && g2 != g as int);
                let kb = choose|kb: int|
                    0 <= kb < before_g.games_v().len() && before_g.games_v()[kb] == g2;
                assert(before_g.game_ok(g2));
                assert(before_g.profiles_v(g2) == pre.profiles_v(g2));
                assert(before_g.mods_v(g2) == pre.mods_v(g2));
                assert(after_g.profiles_v(g2) == before_g.profiles_v(g2).filter(
                    crate::store::ne_addr(g as int),
                ));
                assert forall|jx: int| 0 <= jx < before_g.profiles_v(g2).len() implies crate::store::ne_addr(
                    g as int,
                )(#[trigger] before_g.profiles_v(g2)[jx]) by {
                    crate::model::lemma_filter_sub(
                        before_g.st().neis(g2),
                        kind_pred(before_g.st(), KIND_PROFILE),
                    );
                    assert(kind_pred(before_g.st(), KIND_PROFILE)(before_g.profiles_v(g2)[jx]));
                    assert(before_g.game_ok(g as int)) by {
                        let kg = choose|kg: int|
                            0 <= kg < before_g.games_v().len() && before_g.games_v()[kg]
                                == g as int;
                    }
                }
                crate::model::lemma_filter_all(
                    before_g.profiles_v(g2),
                    crate::store::ne_addr(g as int),
                );
                assert(after_g.mods_v(g2) == before_g.mods_v(g2).filter(
                    crate::store::ne_addr(g as int),
                ));
                assert forall|jx: int| 0 <= jx < before_g.mods_v(g2).len() implies crate::store::ne_addr(
                    g as int,
                )(#[trigger] before_g.mods_v(g2)[jx]) by {
                    crate::model::lemma_filter_sub(
                        before_g.st().neis(g2),
                        kind_pred(before_g.st(), KIND_MOD),
                    );
                    assert(kind_pred(before_g.st(), KIND_MOD)(before_g.mods_v(g2)[jx]));
                    assert(before_g.game_ok(g as int)) by {
                        let kg = choose|kg: int|
                            0 <= kg < before_g.games_v().len() && before_g.games_v()[kg]
                                == g as int;
                    }
                }
                crate::model::lemma_filter_all(
                    before_g.mods_v(g2),
                    crate::store::ne_addr(g as int),
                );
                assert(g2 != pre.roots.active_profile as int) by {
                    assert(before_g.st().field(pre.roots.active_profile as int, "kind"@) is None);
                }
                assert(done.profiles_v(g2) == after_g.profiles_v(g2));
                assert(done.mods_v(g2) == after_g.mods_v(g2));
            }
            assert(repo.fs@.take(pre.fs@.len() as int) =~= pre.fs@) by {
                assert(done.fs@.take(pre.fs@.len() as int) == pre.fs@);
                assert forall|j: int| 0 <= j < pre.fs@.len() implies repo.fs@[j] == pre.fs@[j] by {
                    assert(done.fs@.take(pre.fs@.len() as int)[j] == pre.fs@[j]);
                    assert(repo.fs@[j] == done.fs@[j]);
                }
            }
            assert forall|j: int| 0 <= j < porig.len() implies !repo.st().has_node(
                #[trigger] porig[j],
            ) by {
                assert(!after_g.st().has_node(porig[j]));
                assert(done.st().nodes() == after_g.st().nodes());
            }
            assert forall|j: int| 0 <= j < morig.len() implies !repo.st().has_node(
                #[trigger] morig[j],
            ) by {
                assert(!after_g.st().has_node(morig[j]));
                assert(done.st().nodes() == after_g.st().nodes());
            }
            if !pre.actives_v().contains(g as int) {
                assert(!was_active);
                assert(repo.actives_v() == after_g.actives_v());
                assert(after_g.actives_v() == pre.actives_v().filter(
                    crate::store::ne_addr(g as int),
                ));
                assert forall|j: int| 0 <= j < pre.actives_v().len() implies crate::store::ne_addr(
                    g as int,
                )(#[trigger] pre.actives_v()[j]) by {
                    assert(pre.actives_v().contains(pre.actives_v()[j]));
                }
                crate::model::lemma_filter_all(pre.actives_v(), crate::store::ne_addr(g as int));
            } else {
                assert(was_active);
                if filtered.len() == 0 {
                    assert(repo.actives_v() == after_g.actives_v());
                    assert(after_g.actives_v() =~= Seq::<int>::empty()) by {
                        assert(after_g.actives_v() == pre.actives_v().filter(
                            crate::store::ne_addr(g as int),
                        ));
                        pre.actives_v().lemma_filter_len(crate::store::ne_addr(g as int));
                        assert(pre.actives_v().len() <= 1);
                        if after_g.actives_v().len() > 0 {
                            crate::model::lemma_filter_sub(
                                pre.actives_v(),
                                crate::store::ne_addr(g as int),
                            );
                            let q = after_g.actives_v()[0];
                            assert(pre.actives_v().contains(q) && q != g as int);
                            let kq = choose|kq: int|
                                0 <= kq < pre.actives_v().len() && pre.actives_v()[kq] == q;
                            assert(pre.actives_v().contains(g as int));
                            let kg = choose|kg: int|
                                0 <= kg < pre.actives_v().len() && pre.actives_v()[kg] == g as int;
                            assert(kq != kg);
                            assert(false);
                        }
                    }
                } else {
                    assert(repo.actives_v() =~= seq![filtered[0]]);
                }
            }
            assert(repo.games_v() == after_g.games_v());
        }
        Ok(())
    }
}

/// A profile node carries the profile kind, not the game kind.
pub(crate) proof fn lemma_profile_not_root_pub(r: Repository, p: int)
    requires
        r.wf_state(),
        r.is_profile(p),
    ensures
        !r.is_kind(p, KIND_GAME),
        r.profile_ok(p),
{
    let gi = choose|gi: int|
        0 <= gi < r.games_v().len() && r.profiles_v(#[trigger] r.games_v()[gi]).contains(p);
    let jj = choose|jj: int|
        0 <= jj < r.profiles_v(r.games_v()[gi]).len() && r.profiles_v(r.games_v()[gi])[jj] == p;
    assert(r.profile_ok(p));
}


impl Repository {
    /// The currently active game, if one is pointed at.
    pub fn active_game(&self) -> (r: Result<Option<Game>, Error>)
        requires
            self.wf(),
        ensures
            r matches Ok(o) ==> !self.poisoned && (match o {
                Some(game) => self.actives_v() == seq![game.id.addr as int] && game.id.live(
                    self.st(),
                ) && self.games_v().contains(game.id.addr as int),
                None => self.actives_v().len() == 0,
            }),
            r matches Err(e) ==> e is Internal,
    {
        if self.poisoned {
            return Err(Self::poisoned_err());
        }
        let targets = self.out_neighbors(self.roots.active_game)?;
        if targets.len() == 0 {
            proof {
                assert(self.actives_v().len() == 0) by {
                    assert(targets@.map_values(crate::store::addr_int()).len() == 0);
                }
            }
            return Ok(None);
        }
        let a = targets[0];
        proof {
            assert(targets@.map_values(crate::store::addr_int())[0] == a as int);
            assert(self.actives_v().len() <= 1);
            assert(self.actives_v() =~= seq![a as int]) by {
                assert(targets@.map_values(crate::store::addr_int()).len() == targets@.len());
            }
            assert(self.games_v().contains(a as int)) by {
                assert(self.actives_v()[0] == a as int);
            }
        }
        let uid = match self.store.get_value(a, "uid") {
            GetValue::Found(FieldValue::U64(u)) => u,
            GetValue::Found(_) => {
                return Err(Error::Internal("entity uid holds a non-integer".to_owned()));
            },
            GetValue::Missing => {
                return Err(Error::Internal("entity uid is missing".to_owned()));
            },
            GetValue::Fault(m) => {
                return Err(Error::Internal(m));
            },
        };
        Ok(Some(Game { id: EntityId { addr: a, uid } }))
    }
}


impl Game {
    /// Make this game the active one: the single pointer edge from the
    /// "active_game" root is replaced by one to this game.
    #[verifier::rlimit(40)]
    #[verifier::spinoff_prover]
    pub fn activate(&self, repo: &mut Repository) -> (r: Result<(), Error>)
        requires
            old(repo).wf(),
        ensures
            final(repo).wf(),
            final(repo).roots == old(repo).roots,
            final(repo).lib_dir == old(repo).lib_dir,
            final(repo).chains == old(repo).chains,
            final(repo).fs == old(repo).fs,
            r is Ok ==> {
                &&& !old(repo).poisoned && !final(repo).poisoned
                &&& self.id.live(old(repo).st())
                &&& old(repo).games_v().contains(self.id.addr as int)
                &&& final(repo).actives_v() == seq![self.id.addr as int]
                &&& final(repo).games_v() == old(repo).games_v()
                &&& final(repo).active_ps_v() == old(repo).active_ps_v()
                &&& (forall|g: int| final(repo).profiles_v(g) == old(repo).profiles_v(g))
                &&& (forall|g: int| final(repo).mods_v(g) == old(repo).mods_v(g))
                &&& (forall|b: int, k: Seq<char>|
                    final(repo).st().field(b, k) == old(repo).st().field(b, k))
            },
            r matches Err(e) ==> e is RemovedEntity || e is Internal,
            r matches Err(e) && e is RemovedEntity ==> (!self.id.live(old(repo).st()) || !old(
                repo,
            ).games_v().contains(self.id.addr as int)) && *final(repo) == *old(repo),
    {
        if repo.poisoned {
            return Err(Repository::poisoned_err());
        }
        let a = self.id.resolve(&repo.store)?;
        let listed = repo.out_neighbors(repo.roots.games)?;
        let mut li: usize = 0;
        let mut found: bool = false;
        while li < listed.len()
            invariant
                *repo == *old(repo),
                repo.wf_state(),
                !repo.poisoned,
                a == self.id.addr,
                listed@.map_values(crate::store::addr_int()) == repo.games_v(),
                li <= listed@.len(),
                found ==> repo.games_v().contains(a as int),
                !found ==> forall|j: int| 0 <= j < li as int ==> repo.games_v()[j] != a as int,
            decreases listed@.len() - li,
        {
            if listed[li] == a {
                proof {
                    assert(listed@.map_values(crate::store::addr_int())[li as int] == a as int);
                }
                found = true;
            }
            li = li + 1;
        }
        if !found {
            return Err(Error::RemovedEntity);
        }
        // Drop the current pointer, if one exists.
        let ghost pre = *repo;
        let eids = match repo.store.out_edge_ids(repo.roots.active_game) {
            Ok(v) => v,
            Err(f) => {
                return Err(Error::Internal(f.message));
            },
        };
        proof {
            assert(eids@.len() == pre.actives_v().len()) by {
                assert(eids@.map_values(crate::store::addr_int()).len() == eids@.len());
                assert(pre.st().out_src(pre.roots.active_game as int).reverse().map_values(
                    crate::store::edge_eid(),
                ).len() == pre.st().out_src(pre.roots.active_game as int).len());
            }
        }
        if eids.len() > 0 {
            let eid = eids[0];
            let ghost edge = pre.st().out_src(pre.roots.active_game as int).reverse()[0];
            proof {
                assert(eids@.map_values(crate::store::addr_int())[0] == eid as int);
                assert(edge.eid == eid as int);
                assert(pre.st().edges().contains(edge)) by {
                    crate::model::lemma_filter_sub(
                        pre.st().edges(),
                        crate::store::src_is(pre.roots.active_game as int),
                    );
                    let os = pre.st().out_src(pre.roots.active_game as int);
                    assert(edge == os[os.len() - 1]);
                }
                assert(edge.src == pre.roots.active_game as int) by {
                    crate::model::lemma_filter_sub(
                        pre.st().edges(),
                        crate::store::src_is(pre.roots.active_game as int),
                    );
                    let os = pre.st().out_src(pre.roots.active_game as int);
                    assert(edge == os[os.len() - 1]);
                }
                assert(eid < 0) by {
                    let k = choose|k: int|
                        0 <= k < pre.st().edges().len() && pre.st().edges()[k] == edge;
                    assert(pre.st().edges()[k].eid < 0);
                }
            }
            match repo.store.remove_element(eid) {
                Ok(_) => (),
                Err(f) => {
                    proof {
                        crate::repo::lemma_wf_same_store_views(pre, *repo);
                    }
                    return Err(Error::Internal(f.message));
                },
            }
            proof {
                crate::profile::lemma_wf_unpoint(pre, *repo, edge, false);
                assert(repo.actives_v() =~= Seq::<int>::empty()) by {
                    assert(pre.actives_v().len() == 1);
                    assert(pre.actives_v()[0] == edge.dst) by {
                        let os = pre.st().out_src(pre.roots.active_game as int);
                        assert(pre.actives_v()[0] == os.reverse().map_values(
                            crate::store::edge_dst(),
                        )[0]);
                    }
                    assert forall|j: int| 0 <= j < pre.actives_v().len() implies !crate::store::ne_addr(
                        edge.dst,
                    )(#[trigger] pre.actives_v()[j]) by {}
                    crate::model::lemma_filter_all(
                        pre.actives_v(),
                        crate::store::ne_addr(edge.dst),
                    );
                }
            }
        }
        // Point at this game.
        let ghost mid = *repo;
        proof {
            assert(mid.actives_v() =~= Seq::<int>::empty()) by {
                if pre.actives_v().len() == 0 {
                    assert(mid == pre || mid.actives_v() == pre.actives_v());
                    assert(mid.actives_v().len() == 0);
                }
            }
            assert(mid.games_v().contains(a as int));
        }
        match repo.store.new_edge(repo.roots.active_game, a) {
            Ok(eid2) => {
                proof {
                    crate::profile::lemma_wf_point_active(
                        mid,
                        *repo,
                        a as int,
                        GEdge { eid: eid2 as int, src: mid.roots.active_game as int, dst: a as int },
                        false,
                    );
                }
                Ok(())
            },
            Err(f) => {
                proof {
                    crate::repo::lemma_wf_same_store_views(mid, *repo);
                }
                Err(Error::Internal(f.message))
            },
        }
    }
}

} // verus!
