//! Profiles and mods: children of one game, linked by an edge from the game
//! node; a shared lemma covers linking either kind of child.
use vstd::prelude::*;

use crate::errors::Error;
use crate::fsops::FsOp;
use crate::game::{game_dir_spec, game_dir_str, Game};
use crate::ids::{get_text, EntityId};
use crate::repo::{kind_pred, lemma_field_keys, Repository, KIND_ENTRY, KIND_GAME, KIND_MOD, KIND_PROFILE, KIND_TOOL};
use crate::store::{FieldValue, GEdge, GetValue, Val};
use vstd::string::StringExecFns;

verus! {

/// A handle on one profile.
#[derive(Debug, Clone, Copy, PartialEq, Eq, Structural)]
pub struct Profile {
    pub id: EntityId,
}

/// A handle on one mod.
#[derive(Debug, Clone, Copy, PartialEq, Eq, Structural)]
pub struct Mod {
    pub id: EntityId,
}

/// Some profile of game `g` already carries this name.
pub open spec fn profile_name_taken(r: Repository, g: int, n: Seq<char>) -> bool {
    exists|i: int|
        0 <= i < r.profiles_v(g).len() && r.name_of(#[trigger] r.profiles_v(g)[i]) == Some(
            Val::Text(n),
        )
}

/// The directory of a profile, nested under its game's directory.
pub open spec fn profile_dir_spec(lib: Seq<char>, game: Seq<char>, name: Seq<char>) -> Seq<char> {
    game_dir_spec(lib, game) + "/profiles/"@ + crate::store::snake_of(name)
}

/// The directory of a mod, nested under its game's directory.
pub open spec fn mod_dir_spec(lib: Seq<char>, game: Seq<char>, name: Seq<char>) -> Seq<char> {
    game_dir_spec(lib, game) + "/mods/"@ + crate::store::snake_of(name)
}

pub fn profile_dir_str(lib_dir: &str, game: &str, name: &str) -> (r: String)
    ensures
        r@ == profile_dir_spec(lib_dir@, game@, name@),
{
    let mut s = game_dir_str(lib_dir, game);
    s.append("/profiles/");
    let sn = crate::store::snake_case(name);
    s.append(sn.as_str());
    s
}

pub fn mod_dir_str(lib_dir: &str, game: &str, name: &str) -> (r: String)
    ensures
        r@ == mod_dir_spec(lib_dir@, game@, name@),
{
    let mut s = game_dir_str(lib_dir, game);
    s.append("/mods/");
    let sn = crate::store::snake_case(name);
    s.append(sn.as_str());
    s
}

/// Linking a fresh, fully fielded profile or mod node under a listed game
/// yields a well-formed state whose child listing gained exactly that child.

#[verifier::spinoff_prover]
pub(crate) proof fn lemma_wf_link_child(
    r1: Repository,
    r2: Repository,
    g: int,
    x: int,
    kind: u64,
    e: GEdge,
)
    requires
        r1.wf_state(),
        r2.roots == r1.roots,
        r2.st().ok(),
        r2.st().nodes() == r1.st().nodes(),
        kind == KIND_PROFILE || kind == KIND_MOD,
        kind == KIND_PROFILE ==> r1.profile_ok(x) && r2.chains@ == r1.chains@.insert(
            x,
            Seq::<int>::empty(),
        ),
        kind == KIND_MOD ==> r1.mod_ok(x) && r2.chains == r1.chains,
        forall|i: int|
            0 <= i < r1.st().edges().len() ==> (#[trigger] r1.st().edges()[i]).dst != x
                && r1.st().edges()[i].src != x,
        x != r1.roots.games as int,
        x != r1.roots.tools as int,
        x != r1.roots.active_game as int,
        x != r1.roots.active_profile as int,
        x != r1.roots.version as int,
        x != r1.roots.counter as int,
        r1.games_v().contains(g),
        e == (GEdge { eid: e.eid, src: g, dst: x }),
        r2.st().edges() == r1.st().edges().push(e),
    ensures
        r2.wf_state(),
        r2.games_v() == r1.games_v(),
        r2.tools_v() == r1.tools_v(),
        r2.actives_v() == r1.actives_v(),
        r2.active_ps_v() == r1.active_ps_v(),
        kind == KIND_PROFILE ==> r2.profiles_v(g) == seq![x] + r1.profiles_v(g) && (forall|g2: int|
            g2 != g ==> r2.profiles_v(g2) == r1.profiles_v(g2)) && (forall|g2: int|
            r2.mods_v(g2) == r1.mods_v(g2)),
        kind == KIND_MOD ==> r2.mods_v(g) == seq![x] + r1.mods_v(g) && (forall|g2: int|
            g2 != g ==> r2.mods_v(g2) == r1.mods_v(g2)) && (forall|g2: int|
            r2.profiles_v(g2) == r1.profiles_v(g2)),
        forall|a: int| a != g ==> r2.entry_neis(a) == r1.entry_neis(a),
        forall|a: int| a != g ==> r2.mod_neis(a) == r1.mod_neis(a),
        r2.game_in_neis(x) == seq![g],
        forall|a: int| a != x ==> r2.game_in_neis(a) == r1.game_in_neis(a),
{
    crate::model::lemma_unlisted(r1.st(), x);
    crate::model::lemma_unlisted_src(r1.st(), x);
    crate::model::lemma_push_edge(r1.st(), r2.st(), e);
    assert forall|sq: Seq<int>, k: u64| true implies #[trigger] sq.filter(kind_pred(r2.st(), k))
        == sq.filter(kind_pred(r1.st(), k)) by {
        assert forall|j: int| 0 <= j < sq.len() implies (kind_pred(r2.st(), k)(#[trigger] sq[j])
            <==> kind_pred(r1.st(), k)(sq[j])) by {}
        crate::model::lemma_filter_congruence(sq, kind_pred(r2.st(), k), kind_pred(r1.st(), k));
    }
    let gi0 = choose|gi0: int| 0 <= gi0 < r1.games_v().len() && r1.games_v()[gi0] == g;
    assert(r1.game_ok(g));
    // Neighbour listings: only `g` gains `x` in front; only `x` gains an
    // in-neighbour.
    assert(r2.st().neis(g) == seq![x] + r1.st().neis(g));
    assert(r2.st().in_neis(x) == seq![e.src] + r1.st().in_neis(x));
    assert(r1.st().in_neis(x) =~= Seq::<int>::empty()) by {
        crate::model::lemma_filter_all(r1.st().edges(), crate::store::dst_is(x));
        assert(r1.st().in_dst(x) =~= Seq::<GEdge>::empty());
        assert(r1.st().in_dst(x).reverse() =~= Seq::<GEdge>::empty());
    }
    assert(r2.st().in_neis(x) =~= seq![g]);
    assert(r1.st().neis(x) =~= Seq::<int>::empty()) by {
        crate::model::lemma_filter_all(r1.st().edges(), crate::store::src_is(x));
        assert(r1.st().out_src(x) =~= Seq::<GEdge>::empty());
        assert(r1.st().out_src(x).reverse() =~= Seq::<GEdge>::empty());
    }
    assert(r2.st().neis(x) == r1.st().neis(x));
    // Kind filters keep their meaning: fields are untouched.
    assert(r2.games_v() == r1.games_v());
    assert(r2.tools_v() == r1.tools_v());
    assert(r2.actives_v() == r1.actives_v());
    assert(r2.active_ps_v() == r1.active_ps_v());
    assert forall|g2: int| g2 != g implies #[trigger] r2.profiles_v(g2) == r1.profiles_v(g2)
        && r2.mods_v(g2) == r1.mods_v(g2) && r2.entry_neis(g2) == r1.entry_neis(g2) && r2.mod_neis(
        g2,
    ) == r1.mod_neis(g2) by {
        assert(r2.st().neis(g2) == r1.st().neis(g2));
    }
    crate::game::seq_prepend_filter(x, r1.st().neis(g), kind_pred(r1.st(), KIND_PROFILE));
    crate::game::seq_prepend_filter(x, r1.st().neis(g), kind_pred(r1.st(), KIND_MOD));
    crate::game::seq_prepend_filter(x, r1.st().neis(g), kind_pred(r1.st(), KIND_ENTRY));
    assert(!kind_pred(r1.st(), KIND_ENTRY)(x));
    assert(r2.entry_neis(g) == (seq![x] + r1.st().neis(g)).filter(kind_pred(r1.st(), KIND_ENTRY)));
    assert(r2.entry_neis(g) == r1.entry_neis(g));
    // The new child's parent listing is exactly the game.
    assert(r2.game_in_neis(x) == seq![g].filter(kind_pred(r2.st(), KIND_GAME)));
    assert(seq![g].filter(kind_pred(r2.st(), KIND_GAME)) =~= seq![g]) by {
        crate::model::lemma_filter_push(Seq::<int>::empty(), kind_pred(r2.st(), KIND_GAME), g);
        assert(Seq::<int>::empty().push(g) =~= seq![g]);
        assert(Seq::<int>::empty().filter(kind_pred(r2.st(), KIND_GAME)) =~= Seq::<int>::empty());
        assert(kind_pred(r2.st(), KIND_GAME)(g));
        assert(Seq::<int>::empty().filter(kind_pred(r2.st(), KIND_GAME)).push(g) =~= seq![g]);
    }
    assert forall|a: int| a != x implies #[trigger] r2.game_in_neis(a) == r1.game_in_neis(a) by {
        assert(r2.st().in_neis(a) == r1.st().in_neis(a));
    }
    // Well-formedness.
    assert(r2.games_ok()) by {
        assert forall|i: int| 0 <= i < r2.games_v().len() implies r2.game_ok(
            #[trigger] r2.games_v()[i],
        ) by {
            assert(r1.game_ok(r1.games_v()[i]));
        }
    }
    assert(r2.actives_ok());
    assert(!r1.profiles_v(g).contains(x) && !r1.mods_v(g).contains(x)) by {
        crate::model::lemma_filter_sub(r1.st().neis(g), kind_pred(r1.st(), KIND_PROFILE));
        crate::model::lemma_filter_sub(r1.st().neis(g), kind_pred(r1.st(), KIND_MOD));
        if r1.profiles_v(g).contains(x) {
            let j = choose|j: int| 0 <= j < r1.profiles_v(g).len() && r1.profiles_v(g)[j] == x;
            assert(r1.st().neis(g).contains(x));
        }
        if r1.mods_v(g).contains(x) {
            let j = choose|j: int| 0 <= j < r1.mods_v(g).len() && r1.mods_v(g)[j] == x;
            assert(r1.st().neis(g).contains(x));
        }
    }
    assert forall|i: int| 0 <= i < r2.games_v().len() implies r2.game_children_ok(
        #[trigger] r2.games_v()[i],
    ) by {
        let g2 = r2.games_v()[i];
        assert(r1.game_children_ok(g2));
        assert forall|j: int| 0 <= j < r2.profiles_v(g2).len() implies r2.profile_ok(
            #[trigger] r2.profiles_v(g2)[j],
        ) && r2.game_in_neis(r2.profiles_v(g2)[j]) == seq![g2] by {
            if g2 == g && kind == KIND_PROFILE && j == 0 {
                assert(r2.profiles_v(g2)[0] == x);
            } else {
                let p = if g2 == g && kind == KIND_PROFILE {
                    r1.profiles_v(g2)[j - 1]
                } else {
                    r1.profiles_v(g2)[j]
                };
                assert(r2.profiles_v(g2)[j] == p);
                assert(r1.profile_ok(p));
                assert(p != x) by {
                    crate::model::lemma_filter_sub(
                        r1.st().neis(g2),
                        kind_pred(r1.st(), KIND_PROFILE),
                    );
                    assert(r1.st().neis(g2).contains(p));
                }
                assert(r1.game_in_neis(p) == seq![g2]);
            }
        }
        assert forall|j: int| 0 <= j < r2.mods_v(g2).len() implies r2.mod_ok(
            #[trigger] r2.mods_v(g2)[j],
        ) && r2.game_in_neis(r2.mods_v(g2)[j]) == seq![g2] by {
            if g2 == g && kind == KIND_MOD && j == 0 {
                assert(r2.mods_v(g2)[0] == x);
            } else {
                let m = if g2 == g && kind == KIND_MOD {
                    r1.mods_v(g2)[j - 1]
                } else {
                    r1.mods_v(g2)[j]
                };
                assert(r2.mods_v(g2)[j] == m);
                assert(r1.mod_ok(m));
                assert(m != x) by {
                    crate::model::lemma_filter_sub(r1.st().neis(g2), kind_pred(r1.st(), KIND_MOD));
                    assert(r1.st().neis(g2).contains(m));
                }
                assert(r1.game_in_neis(m) == seq![g2]);
            }
        }
        assert(r2.profiles_v(g2).no_duplicates());
        assert(r2.mods_v(g2).no_duplicates());
    }
    assert forall|i: int, j: int, p: int|
        0 <= i < r2.games_v().len() && 0 <= j < r2.games_v().len() && i != j
            && #[trigger] r2.profiles_v(r2.games_v()[i]).contains(p) implies !(
    #[trigger] r2.profiles_v(r2.games_v()[j]).contains(p)) by {
        let gi = r2.games_v()[i];
        let gj = r2.games_v()[j];
        if p == x {
            assert(kind == KIND_PROFILE);
            assert(gi == g) by {
                if gi != g {
                    assert(r1.profiles_v(gi).contains(x));
                }
            }
            if r2.profiles_v(gj).contains(x) {
                assert(gj == g || r1.profiles_v(gj).contains(x));
                assert(gj == g);
                assert(r1.games_v()[gi0] == g);
                assert(r2.games_v().no_duplicates());
            }
        } else {
            assert(r1.profiles_v(gi).contains(p));
            if r2.profiles_v(gj).contains(p) {
                assert(r1.profiles_v(gj).contains(p));
            }
        }
    }
    assert forall|i: int, j: int, m: int|
        0 <= i < r2.games_v().len() && 0 <= j < r2.games_v().len() && i != j
            && #[trigger] r2.mods_v(r2.games_v()[i]).contains(m) implies !(#[trigger] r2.mods_v(
        r2.games_v()[j],
    ).contains(m)) by {
        let gi = r2.games_v()[i];
        let gj = r2.games_v()[j];
        if m == x {
            assert(kind == KIND_MOD);
            assert(gi == g) by {
                if gi != g {
                    assert(r1.mods_v(gi).contains(x));
                }
            }
            if r2.mods_v(gj).contains(x) {
                assert(gj == g || r1.mods_v(gj).contains(x));
                assert(gj == g);
                assert(r2.games_v().no_duplicates());
            }
        } else {
            assert(r1.mods_v(gi).contains(m));
            if r2.mods_v(gj).contains(m) {
                assert(r1.mods_v(gj).contains(m));
            }
        }
    }
    assert(r2.children_ok());
    assert forall|p: int| r2.is_profile(p) <==> (r1.is_profile(p) || (kind == KIND_PROFILE && p
        == x)) by {
        if r1.is_profile(p) {
            let gi = choose|gi: int|
                0 <= gi < r1.games_v().len() && r1.profiles_v(#[trigger] r1.games_v()[gi]).contains(
                    p,
                );
            if r1.games_v()[gi] == g && kind == KIND_PROFILE {
                assert(r2.profiles_v(g).contains(p)) by {
                    let j = choose|j: int|
                        0 <= j < r1.profiles_v(g).len() && r1.profiles_v(g)[j] == p;
                    assert(r2.profiles_v(g)[j + 1] == p);
                }
            } else {
                assert(r2.profiles_v(r2.games_v()[gi]).contains(p));
            }
            assert(r2.is_profile(p));
        }
        if kind == KIND_PROFILE && p == x {
            assert(r2.profiles_v(g)[0] == x);
            assert(r2.profiles_v(g).contains(x));
            assert(r2.is_profile(x));
        }
        if r2.is_profile(p) && !(kind == KIND_PROFILE && p == x) {
            let gi = choose|gi: int|
                0 <= gi < r2.games_v().len() && r2.profiles_v(#[trigger] r2.games_v()[gi]).contains(
                    p,
                );
            if r2.games_v()[gi] == g && kind == KIND_PROFILE {
                assert(r1.profiles_v(g).contains(p)) by {
                    let j = choose|j: int|
                        0 <= j < r2.profiles_v(g).len() && r2.profiles_v(g)[j] == p;
                    assert(j != 0);
                    assert(r1.profiles_v(g)[j - 1] == p);
                }
            } else {
                assert(r1.profiles_v(r1.games_v()[gi]).contains(p));
            }
            assert(r1.is_profile(p));
        }
    }
    assert forall|gi: int| 0 <= gi < r2.games_v().len() implies r2.active_ps_v().filter(
        |p: int| r2.profiles_v(#[trigger] r2.games_v()[gi]).contains(p),
    ).len() <= 1 by {
        let g2 = r2.games_v()[gi];
        assert forall|j: int| 0 <= j < r1.active_ps_v().len() implies ((|p: int|
            r2.profiles_v(g2).contains(p))(#[trigger] r1.active_ps_v()[j]) <==> (|p: int|
            r1.profiles_v(g2).contains(p))(r1.active_ps_v()[j])) by {
            let p = r1.active_ps_v()[j];
            assert(p != x) by {
                assert(r1.is_profile(p));
                let gk = choose|gk: int|
                    0 <= gk < r1.games_v().len() && r1.profiles_v(
                        #[trigger] r1.games_v()[gk],
                    ).contains(p);
                crate::model::lemma_filter_sub(
                    r1.st().neis(r1.games_v()[gk]),
                    kind_pred(r1.st(), KIND_PROFILE),
                );
                let jj = choose|jj: int|
                    0 <= jj < r1.profiles_v(r1.games_v()[gk]).len() && r1.profiles_v(
                        r1.games_v()[gk],
                    )[jj] == p;
                assert(r1.st().neis(r1.games_v()[gk]).contains(p));
            }
            if g2 == g && kind == KIND_PROFILE {
                if r1.profiles_v(g).contains(p) {
                    let j2 = choose|j2: int|
                        0 <= j2 < r1.profiles_v(g).len() && r1.profiles_v(g)[j2] == p;
                    assert(r2.profiles_v(g)[j2 + 1] == p);
                }
                if r2.profiles_v(g).contains(p) {
                    let j2 = choose|j2: int|
                        0 <= j2 < r2.profiles_v(g).len() && r2.profiles_v(g)[j2] == p;
                    assert(j2 != 0);
                    assert(r1.profiles_v(g)[j2 - 1] == p);
                }
            }
        }
        crate::model::lemma_filter_congruence(
            r1.active_ps_v(),
            |p: int| r2.profiles_v(g2).contains(p),
            |p: int| r1.profiles_v(g2).contains(p),
        );
    }
    assert forall|i: int| 0 <= i < r2.active_ps_v().len() implies r2.is_profile(
        #[trigger] r2.active_ps_v()[i],
    ) by {
        assert(r1.is_profile(r1.active_ps_v()[i]));
    }
    assert(r2.active_ps_ok());
    // Chains.
    assert forall|p: int| #[trigger] r2.chains@.dom().contains(p) implies r2.chain_ok(
        p,
        r2.chains@[p],
    ) by {
        if kind == KIND_PROFILE && p == x {
            assert(r2.chains@[x] =~= Seq::<int>::empty());
            assert(r2.entry_neis(x) =~= Seq::<int>::empty()) by {
                assert(r2.st().neis(x) =~= Seq::<int>::empty());
                crate::model::lemma_filter_all(r2.st().neis(x), kind_pred(r2.st(), KIND_ENTRY));
            }
            assert(r2.entry_neis(x) == Seq::<int>::empty());
        } else {
            assert(r1.chains@.dom().contains(p));
            assert(r1.chain_ok(p, r1.chains@[p]));
            let c = r2.chains@[p];
            assert(c == r1.chains@[p]);
            assert(p != g) by {
                assert(r1.is_profile(p));
                let gk = choose|gk: int|
                    0 <= gk < r1.games_v().len() && r1.profiles_v(
                        #[trigger] r1.games_v()[gk],
                    ).contains(p);
                let jj = choose|jj: int|
                    0 <= jj < r1.profiles_v(r1.games_v()[gk]).len() && r1.profiles_v(
                        r1.games_v()[gk],
                    )[jj] == p;
                assert(r1.profile_ok(p));
            }
            assert(r2.entry_neis(p) == r1.entry_neis(p));
            assert forall|i: int| 0 <= i < c.len() implies r2.entry_ok(#[trigger] c[i])
                && r2.entry_neis(c[i]) == r1.entry_neis(c[i]) && r2.mod_neis(c[i]) == r1.mod_neis(
                c[i],
            ) by {
                assert(r1.entry_ok(c[i]));
                assert(c[i] != g);
            }
            assert forall|i: int|
                0 <= i < c.len() && r2.mod_neis(#[trigger] c[i]).len() == 1 implies r2.mod_ok(
                r2.mod_neis(c[i])[0],
            ) by {
                assert(r1.mod_ok(r1.mod_neis(c[i])[0]));
            }
        }
    }
    assert forall|p1: int, p2: int, en: int|
        r2.chains@.dom().contains(p1) && r2.chains@.dom().contains(p2) && p1 != p2
            && #[trigger] r2.chains@[p1].contains(en) implies !(#[trigger] r2.chains@[p2].contains(
        en,
    )) by {
        if kind == KIND_PROFILE && p1 == x {
            assert(r2.chains@[x] =~= Seq::<int>::empty());
        } else if kind == KIND_PROFILE && p2 == x {
            assert(r2.chains@[x] =~= Seq::<int>::empty());
        } else {
            assert(r1.chains@[p1].contains(en));
        }
    }
    assert(r2.chains_ok());
    assert forall|i: int| 0 <= i < r2.tools_v().len() implies r2.tool_ok(
        #[trigger] r2.tools_v()[i],
    ) by {
        assert(r1.tool_ok(r1.tools_v()[i]));
    }
    assert(r2.roots_ok());
    assert(r2.counter_ok());
    assert(r2.wf_state());
}


impl Game {
    /// List this game's profiles, newest first.

    #[verifier::spinoff_prover]
       pub fn profiles(&self, repo: &Repository) -> (r: Result<Vec<Profile>, Error>)
        requires
            repo.wf(),
        ensures
            r matches Ok(v) ==> {
                &&& !repo.poisoned
                &&& self.id.live(repo.st())
                &&& v@.len() == repo.profiles_v(self.id.addr as int).len()
                &&& forall|i: int|
                    0 <= i < v@.len() ==> (#[trigger] v@[i]).id.addr as int == repo.profiles_v(
                        self.id.addr as int,
                    )[i] && v@[i].id.live(repo.st())
            },
            r matches Err(e) ==> e is RemovedEntity || e is Internal,
            r matches Err(e) && e is RemovedEntity ==> !self.id.live(repo.st()),
    {
        if repo.poisoned {
            return Err(Repository::poisoned_err());
        }
        let g = self.id.resolve(&repo.store)?;
        let addrs = repo.neighbors_with_kind(g, KIND_PROFILE)?;
        let ghost ps = repo.profiles_v(self.id.addr as int);
        let mut out: Vec<Profile> = Vec::new();
        let mut i: usize = 0;
        while i < addrs.len()
            invariant
                repo.wf_state(),
                !repo.poisoned,
                addrs@.map_values(crate::store::addr_int()) == ps,
                forall|j: int|
                    0 <= j < addrs@.len() ==> #[trigger] addrs@[j] > 0 && repo.st().has_node(
                        addrs@[j] as int,
                    ),
                i <= addrs@.len(),
                out@.len() == i as int,
                forall|j: int|
                    0 <= j < i as int ==> (#[trigger] out@[j]).id.addr as int == ps[j]
                        && out@[j].id.live(repo.st()),
            decreases addrs@.len() - i,
        {
            let a = addrs[i];
            proof {
                assert(addrs@.map_values(crate::store::addr_int())[i as int] == a as int);
            }
            let uid = match repo.store.get_value(a, "uid") {
                GetValue::Found(FieldValue::U64(u)) => u,
                GetValue::Found(_) => {
                    return Err(Error::Internal("entity uid holds a non-integer".to_owned()));
                },
                GetValue::Missing => {
                    return Err(Error::Internal("entity uid is missing".to_owned()));
                },
                GetValue::Fault(m) => {
                    return Err(Error::Internal(m));
                },
            };
            out.push(Profile { id: EntityId { addr: a, uid } });
            i = i + 1;
        }
        Ok(out)
    }

    /// List this game's mods, newest first.

    #[verifier::spinoff_prover]
       pub fn mods(&self, repo: &Repository) -> (r: Result<Vec<Mod>, Error>)
        requires
            repo.wf(),
        ensures
            r matches Ok(v) ==> {
                &&& !repo.poisoned
                &&& self.id.live(repo.st())
                &&& v@.len() == repo.mods_v(self.id.addr as int).len()
                &&& forall|i: int|
                    0 <= i < v@.len() ==> (#[trigger] v@[i]).id.addr as int == repo.mods_v(
                        self.id.addr as int,
                    )[i] && v@[i].id.live(repo.st())
            },
            r matches Err(e) ==> e is RemovedEntity || e is Internal,
            r matches Err(e) && e is RemovedEntity ==> !self.id.live(repo.st()),
    {
        if repo.poisoned {
            return Err(Repository::poisoned_err());
        }
        let g = self.id.resolve(&repo.store)?;
        let addrs = repo.neighbors_with_kind(g, KIND_MOD)?;
        let ghost ms = repo.mods_v(self.id.addr as int);
        let mut out: Vec<Mod> = Vec::new();
        let mut i: usize = 0;
        while i < addrs.len()
            invariant
                repo.wf_state(),
                !repo.poisoned,
                addrs@.map_values(crate::store::addr_int()) == ms,
                forall|j: int|
                    0 <= j < addrs@.len() ==> #[trigger] addrs@[j] > 0 && repo.st().has_node(
                        addrs@[j] as int,
                    ),
                i <= addrs@.len(),
                out@.len() == i as int,
                forall|j: int|
                    0 <= j < i as int ==> (#[trigger] out@[j]).id.addr as int == ms[j]
                        && out@[j].id.live(repo.st()),
            decreases addrs@.len() - i,
        {
            let a = addrs[i];
            proof {
                assert(addrs@.map_values(crate::store::addr_int())[i as int] == a as int);
            }
            let uid = match repo.store.get_value(a, "uid") {
                GetValue::Found(FieldValue::U64(u)) => u,
                GetValue::Found(_) => {
                    return Err(Error::Internal("entity uid holds a non-integer".to_owned()));
                },
                GetValue::Missing => {
                    return Err(Error::Internal("entity uid is missing".to_owned()));
                },
                GetValue::Fault(m) => {
                    return Err(Error::Internal(m));
                },
            };
            out.push(Mod { id: EntityId { addr: a, uid } });
            i = i + 1;
        }
        Ok(out)
    }

    /// Add a profile under this game. A second profile of the same game with
    /// the same name fails with `DuplicateName` and changes nothing.

    #[verifier::spinoff_prover]
       pub fn add_profile(&self, repo: &mut Repository, name: &str) -> (r: Result<Profile, Error>)
        requires
            old(repo).wf(),
        ensures
            final(repo).wf(),
            final(repo).roots == old(repo).roots,
            final(repo).lib_dir == old(repo).lib_dir,
            r matches Ok(profile) ==> {
                &&& !old(repo).poisoned && !final(repo).poisoned
                &&& self.id.live(old(repo).st())
                &&& !profile_name_taken(*old(repo), self.id.addr as int, name@)
                &&& profile.id.addr > 0 && !old(repo).st().has_node(profile.id.addr as int)
                &&& profile.id.live(final(repo).st())
                &&& final(repo).profiles_v(self.id.addr as int) == seq![profile.id.addr as int]
                    + old(repo).profiles_v(self.id.addr as int)
                &&& (forall|g2: int|
                    g2 != self.id.addr as int ==> final(repo).profiles_v(g2) == old(repo).profiles_v(g2))
                &&& (forall|g2: int| final(repo).mods_v(g2) == old(repo).mods_v(g2))
                &&& final(repo).games_v() == old(repo).games_v()
                &&& final(repo).actives_v() == old(repo).actives_v()
                &&& final(repo).active_ps_v() == old(repo).active_ps_v()
                &&& final(repo).name_of(profile.id.addr as int) == Some(Val::Text(name@))
                &&& final(repo).chains@ == old(repo).chains@.insert(
                    profile.id.addr as int,
                    Seq::<int>::empty(),
                )
                &&& (forall|b: int, k: Seq<char>|
                    b != profile.id.addr as int && b != old(repo).roots.counter as int ==> final(repo).st().field(b, k) == old(repo).st().field(b, k))
                &&& (forall|h: EntityId| h.live(old(repo).st()) ==> h.live(final(repo).st()))
                &&& final(repo).fs@.len() == old(repo).fs@.len() + 1
                &&& final(repo).fs@.take(old(repo).fs@.len() as int) == old(repo).fs@
                &&& (final(repo).fs@.last() matches FsOp::CreateDirAll(d) && (old(repo).name_of(
                    self.id.addr as int,
                ) matches Some(gv) && gv matches Val::Text(n) && d@ == profile_dir_spec(
                    old(repo).lib_dir@,
                    n,
                    name@,
                )))
            },
            r matches Err(e) ==> (e is DuplicateName || e is Internal || e is RemovedEntity),
            r matches Err(e) && e is DuplicateName ==> profile_name_taken(
                *old(repo),
                self.id.addr as int,
                name@,
            ) && *final(repo) == *old(repo),
            r matches Err(e) && e is RemovedEntity ==> (!self.id.live(old(repo).st()) || !old(repo).games_v().contains(self.id.addr as int)) && *final(repo) == *old(repo),
            r is Err ==> (forall|g2: int|
                final(repo).profiles_v(g2) == old(repo).profiles_v(g2)) || final(repo).poisoned,
    {
        if repo.poisoned {
            return Err(Repository::poisoned_err());
        }
        let g = self.id.resolve(&repo.store)?;
        // The game must be listed for its children to stay reachable.
        let listed = repo.out_neighbors(repo.roots.games)?;
        let mut li: usize = 0;
        let mut found: bool = false;
        while li < listed.len()
            invariant
                *repo == *old(repo),
                repo.wf_state(),
                !repo.poisoned,
                listed@.map_values(crate::store::addr_int()) == repo.games_v(),
                li <= listed@.len(),
                found ==> repo.games_v().contains(g as int),
                !found ==> forall|j: int| 0 <= j < li as int ==> repo.games_v()[j] != g as int,
            decreases listed@.len() - li,
        {
            if listed[li] == g {
                proof {
                    assert(listed@.map_values(crate::store::addr_int())[li as int] == g as int);
                }
                found = true;
            }
            li = li + 1;
        }
        if !found {
            proof {
                if repo.games_v().contains(g as int) {
                    let j = choose|j: int|
                        0 <= j < repo.games_v().len() && repo.games_v()[j] == g as int;
                }
            }
            return Err(Error::RemovedEntity);
        }
        // Reject a duplicate profile name within this game.
        let existing = repo.neighbors_with_kind(g, KIND_PROFILE)?;
        let mut i: usize = 0;
        while i < existing.len()
            invariant
                *repo == *old(repo),
                repo.wf_state(),
                !repo.poisoned,
                g == self.id.addr,
                existing@.map_values(crate::store::addr_int()) == repo.profiles_v(g as int),
                forall|j: int|
                    0 <= j < existing@.len() ==> #[trigger] existing@[j] > 0 && repo.st().has_node(
                        existing@[j] as int,
                    ),
                i <= existing@.len(),
                forall|j: int|
                    0 <= j < i as int ==> repo.name_of(#[trigger] repo.profiles_v(g as int)[j])
                        != Some(Val::Text(name@)),
            decreases existing@.len() - i,
        {
            let a = existing[i];
            proof {
                assert(existing@.map_values(crate::store::addr_int())[i as int] == a as int);
            }
            let pname = match repo.store.get_value(a, "name") {
                GetValue::Found(FieldValue::Text(t)) => t,
                GetValue::Found(_) => {
                    return Err(Error::Internal("entity name holds a non-text value".to_owned()));
                },
                GetValue::Missing => {
                    return Err(Error::Internal("entity name is missing".to_owned()));
                },
                GetValue::Fault(m) => {
                    return Err(Error::Internal(m));
                },
            };
            if pname == name.to_owned() {
                proof {
                    assert(pname@ == name@);
                    assert(repo.name_of(repo.profiles_v(g as int)[i as int]) == Some(
                        Val::Text(name@),
                    ));
                    assert(profile_name_taken(*repo, g as int, name@));
                }
                return Err(Error::DuplicateName);
            }
            i = i + 1;
        }
        let gname = get_text(&repo.store, self.id, "name")?;
        let created = match repo.create_entity(KIND_PROFILE) {
            Ok(p) => p,
            Err(e) => {
                return Err(e);
            },
        };
        let addr = created.0;
        let uid = created.1;
        proof {
            lemma_field_keys();
        }
        repo.set_unlinked_field(addr, "name", &FieldValue::Text(name.to_owned()))?;
        let ghost base = *repo;
        let eid = match repo.store.new_edge(g, addr) {
            Ok(e) => e,
            Err(f) => {
                return Err(Error::Internal(f.message));
            },
        };
        proof {
            repo.chains@ = base.chains@.insert(addr as int, Seq::<int>::empty());
        }
        proof {
            lemma_wf_link_child(
                base,
                *repo,
                g as int,
                addr as int,
                KIND_PROFILE,
                GEdge { eid: eid as int, src: g as int, dst: addr as int },
            );
        }
        let ghost linked = *repo;
        let dir = profile_dir_str(repo.lib_dir.as_str(), gname.as_str(), name);
        repo.fs.push(FsOp::CreateDirAll(dir));
        proof {
            crate::repo::lemma_wf_same_store(linked, *repo);
            assert forall|h: EntityId| h.live(old(repo).st()) implies h.live(repo.st()) by {
                assert(old(repo).st().has_node(h.addr as int));
                if h.addr as int == old(repo).roots.counter as int {
                    assert(repo.st().field(h.addr as int, "uid"@) == old(repo).st().field(
                        h.addr as int,
                        "uid"@,
                    ));
                } else {
                    assert(h.addr as int != addr as int);
                }
            }
        }
        Ok(Profile { id: EntityId { addr, uid } })
    }
}


impl Game {
    /// Add a mod under this game. With a source path, the archive is queued
    /// for extraction into the mod directory, which is then marked read-only
    /// (mods are immutable payloads); otherwise an empty directory is queued.

    #[verifier::spinoff_prover]
       pub fn add_mod(&self, repo: &mut Repository, name: &str, source_path: Option<&str>) -> (r:
        Result<Mod, Error>)
        requires
            old(repo).wf(),
        ensures
            final(repo).wf(),
            final(repo).roots == old(repo).roots,
            final(repo).lib_dir == old(repo).lib_dir,
            r matches Ok(m) ==> {
                &&& !old(repo).poisoned && !final(repo).poisoned
                &&& self.id.live(old(repo).st())
                &&& m.id.addr > 0 && !old(repo).st().has_node(m.id.addr as int)
                &&& m.id.live(final(repo).st())
                &&& final(repo).mods_v(self.id.addr as int) == seq![m.id.addr as int] + old(repo).mods_v(self.id.addr as int)
                &&& (forall|g2: int|
                    g2 != self.id.addr as int ==> final(repo).mods_v(g2) == old(repo).mods_v(g2))
                &&& (forall|g2: int| final(repo).profiles_v(g2) == old(repo).profiles_v(g2))
                &&& final(repo).games_v() == old(repo).games_v()
                &&& final(repo).actives_v() == old(repo).actives_v()
                &&& final(repo).active_ps_v() == old(repo).active_ps_v()
                &&& final(repo).name_of(m.id.addr as int) == Some(Val::Text(name@))
                &&& final(repo).chains == old(repo).chains
                &&& (forall|b: int, k: Seq<char>|
                    b != m.id.addr as int && b != old(repo).roots.counter as int ==> final(repo).st().field(b, k) == old(repo).st().field(b, k))
                &&& (forall|h: EntityId| h.live(old(repo).st()) ==> h.live(final(repo).st()))
                &&& (source_path is None ==> {
                    &&& final(repo).fs@.len() == old(repo).fs@.len() + 1
                    &&& final(repo).fs@.take(old(repo).fs@.len() as int) == old(repo).fs@
                    &&& (final(repo).fs@.last() matches FsOp::CreateDirAll(d) && (old(repo).name_of(
                        self.id.addr as int,
                    ) matches Some(gv) && gv matches Val::Text(n) && d@ == mod_dir_spec(
                        old(repo).lib_dir@,
                        n,
                        name@,
                    )))
                })
                &&& (source_path matches Some(src) ==> {
                    &&& final(repo).fs@.len() == old(repo).fs@.len() + 2
                    &&& final(repo).fs@.take(old(repo).fs@.len() as int) == old(repo).fs@
                    &&& (final(repo).fs@[final(repo).fs@.len() - 2] matches FsOp::ExtractArchive(
                        a,
                        d,
                    ) && a@ == src@ && (old(repo).name_of(self.id.addr as int) matches Some(gv)
                        && gv matches Val::Text(n) && d@ == mod_dir_spec(
                        old(repo).lib_dir@,
                        n,
                        name@,
                    )))
                    &&& (final(repo).fs@.last() matches FsOp::SetTreePermissions(d2, perm) && (old(repo).name_of(self.id.addr as int) matches Some(gv) && gv matches Val::Text(n)
                        && d2@ == mod_dir_spec(old(repo).lib_dir@, n, name@)) && perm
                        == crate::fsops::Permissions::ReadOnly)
                })
            },
            r matches Err(e) ==> (e is Internal || e is RemovedEntity),
            r matches Err(e) && e is RemovedEntity ==> (!self.id.live(old(repo).st()) || !old(repo).games_v().contains(self.id.addr as int)) && *final(repo) == *old(repo),
            r is Err ==> (forall|g2: int| final(repo).mods_v(g2) == old(repo).mods_v(g2)) || final(repo).poisoned,
    {
        if repo.poisoned {
            return Err(Repository::poisoned_err());
        }
        let g = self.id.resolve(&repo.store)?;
        let listed = repo.out_neighbors(repo.roots.games)?;
        let mut li: usize = 0;
        let mut found: bool = false;
        while li < listed.len()
            invariant
                *repo == *old(repo),
                repo.wf_state(),
                !repo.poisoned,
                g == self.id.addr,
                listed@.map_values(crate::store::addr_int()) == repo.games_v(),
                li <= listed@.len(),
                found ==> repo.games_v().contains(g as int),
                !found ==> forall|j: int| 0 <= j < li as int ==> repo.games_v()[j] != g as int,
            decreases listed@.len() - li,
        {
            if listed[li] == g {
                proof {
                    assert(listed@.map_values(crate::store::addr_int())[li as int] == g as int);
                }
                found = true;
            }
            li = li + 1;
        }
        if !found {
            return Err(Error::RemovedEntity);
        }
        let gname = get_text(&repo.store, self.id, "name")?;
        let created = match repo.create_entity(KIND_MOD) {
            Ok(p) => p,
            Err(e) => {
                return Err(e);
            },
        };
        let addr = created.0;
        let uid = created.1;
        proof {
            lemma_field_keys();
        }
        repo.set_unlinked_field(addr, "name", &FieldValue::Text(name.to_owned()))?;
        let ghost base = *repo;
        let eid = match repo.store.new_edge(g, addr) {
            Ok(e) => e,
            Err(f) => {
                return Err(Error::Internal(f.message));
            },
        };
        proof {
            lemma_wf_link_child(
                base,
                *repo,
                g as int,
                addr as int,
                KIND_MOD,
                GEdge { eid: eid as int, src: g as int, dst: addr as int },
            );
        }
        let ghost linked = *repo;
        let dir = mod_dir_str(repo.lib_dir.as_str(), gname.as_str(), name);
        match source_path {
            Some(src) => {
                let dir2 = dir.clone();
                repo.fs.push(FsOp::ExtractArchive(src.to_owned(), dir));
                repo.fs.push(
                    FsOp::SetTreePermissions(dir2, crate::fsops::Permissions::ReadOnly),
                );
            },
            None => {
                repo.fs.push(FsOp::CreateDirAll(dir));
            },
        }
        proof {
            crate::repo::lemma_wf_same_store(linked, *repo);
            assert forall|h: EntityId| h.live(old(repo).st()) implies h.live(repo.st()) by {
                assert(old(repo).st().has_node(h.addr as int));
                if h.addr as int == old(repo).roots.counter as int {
                    assert(repo.st().field(h.addr as int, "uid"@) == old(repo).st().field(
                        h.addr as int,
                        "uid"@,
                    ));
                } else {
                    assert(h.addr as int != addr as int);
                }
            }
        }
        Ok(Mod { id: EntityId { addr, uid } })
    }
}

impl Profile {
    /// The profile's display name.
    pub fn name(&self, repo: &Repository) -> (r: Result<String, Error>)
        requires
            repo.wf(),
        ensures
            r matches Ok(t) ==> !repo.poisoned && self.id.live(repo.st()) && repo.name_of(
                self.id.addr as int,
            ) == Some(Val::Text(t@)),
            r matches Err(e) ==> e is RemovedEntity || e is Internal,
            r matches Err(e) && e is RemovedEntity ==> !self.id.live(repo.st()),
    {
        if repo.poisoned {
            return Err(Repository::poisoned_err());
        }
        get_text(&repo.store, self.id, "name")
    }

    /// The profile's parent game.

    #[verifier::spinoff_prover]
       pub fn parent(&self, repo: &Repository) -> (r: Result<Game, Error>)
        requires
            repo.wf(),
        ensures
            r matches Ok(game) ==> !repo.poisoned && self.id.live(repo.st()) && repo.game_in_neis(
                self.id.addr as int,
            ).len() > 0 && game.id.addr as int == repo.game_in_neis(self.id.addr as int)[0]
                && game.id.live(repo.st()),
            r matches Err(e) ==> e is RemovedEntity || e is Internal,
            r matches Err(e) && e is RemovedEntity ==> !self.id.live(repo.st()),
    {
        if repo.poisoned {
            return Err(Repository::poisoned_err());
        }
        let a = self.id.resolve(&repo.store)?;
        let g = repo.parent_game_addr(a)?;
        let uid = match repo.store.get_value(g, "uid") {
            GetValue::Found(FieldValue::U64(u)) => u,
            GetValue::Found(_) => {
                return Err(Error::Internal("entity uid holds a non-integer".to_owned()));
            },
            GetValue::Missing => {
                return Err(Error::Internal("entity uid is missing".to_owned()));
            },
            GetValue::Fault(m) => {
                return Err(Error::Internal(m));
            },
        };
        Ok(Game { id: EntityId { addr: g, uid } })
    }

    /// The profile's directory, nested under its game's directory.
    pub fn dir(&self, repo: &Repository) -> (r: Result<String, Error>)
        requires
            repo.wf(),
        ensures
            r matches Ok(d) ==> !repo.poisoned && self.id.live(repo.st()) && repo.game_in_neis(
                self.id.addr as int,
            ).len() > 0 && (repo.name_of(repo.game_in_neis(self.id.addr as int)[0]) matches Some(
                gn,
            ) && gn matches Val::Text(n) && repo.name_of(self.id.addr as int) matches Some(pn)
                && pn matches Val::Text(q) && d@ == profile_dir_spec(repo.lib_dir@, n, q)),
            r matches Err(e) ==> e is RemovedEntity || e is Internal,
            r matches Err(e) && e is RemovedEntity ==> !self.id.live(repo.st()),
    {
        let parent = self.parent(repo)?;
        let gname = parent.name(repo)?;
        let n = self.name(repo)?;
        Ok(profile_dir_str(repo.lib_dir.as_str(), gname.as_str(), n.as_str()))
    }
}

impl Mod {
    /// The mod's display name.
    pub fn name(&self, repo: &Repository) -> (r: Result<String, Error>)
        requires
            repo.wf(),
        ensures
            r matches Ok(t) ==> !repo.poisoned && self.id.live(repo.st()) && repo.name_of(
                self.id.addr as int,
            ) == Some(Val::Text(t@)),
            r matches Err(e) ==> e is RemovedEntity || e is Internal,
            r matches Err(e) && e is RemovedEntity ==> !self.id.live(repo.st()),
    {
        if repo.poisoned {
            return Err(Repository::poisoned_err());
        }
        get_text(&repo.store, self.id, "name")
    }

    /// The mod's parent game.
    pub fn parent(&self, repo: &Repository) -> (r: Result<Game, Error>)
        requires
            repo.wf(),
        ensures
            r matches Ok(game) ==> !repo.poisoned && self.id.live(repo.st()) && repo.game_in_neis(
                self.id.addr as int,
            ).len() > 0 && game.id.addr as int == repo.game_in_neis(self.id.addr as int)[0]
                && game.id.live(repo.st()),
            r matches Err(e) ==> e is RemovedEntity || e is Internal,
            r matches Err(e) && e is RemovedEntity ==> !self.id.live(repo.st()),
    {
        if repo.poisoned {
            return Err(Repository::poisoned_err());
        }
        let a = self.id.resolve(&repo.store)?;
        let g = repo.parent_game_addr(a)?;
        let uid = match repo.store.get_value(g, "uid") {
            GetValue::Found(FieldValue::U64(u)) => u,
            GetValue::Found(_) => {
                return Err(Error::Internal("entity uid holds a non-integer".to_owned()));
            },
            GetValue::Missing => {
                return Err(Error::Internal("entity uid is missing".to_owned()));
            },
            GetValue::Fault(m) => {
                return Err(Error::Internal(m));
            },
        };
        Ok(Game { id: EntityId { addr: g, uid } })
    }

    /// The mod's directory, nested under its game's directory.
    pub fn dir(&self, repo: &Repository) -> (r: Result<String, Error>)
        requires
            repo.wf(),
        ensures
            r matches Ok(d) ==> !repo.poisoned && self.id.live(repo.st()) && repo.game_in_neis(
                self.id.addr as int,
            ).len() > 0 && (repo.name_of(repo.game_in_neis(self.id.addr as int)[0]) matches Some(
                gn,
            ) && gn matches Val::Text(n) && repo.name_of(self.id.addr as int) matches Some(mn)
                && mn matches Val::Text(q) && d@ == mod_dir_spec(repo.lib_dir@, n, q)),
            r matches Err(e) ==> e is RemovedEntity || e is Internal,
            r matches Err(e) && e is RemovedEntity ==> !self.id.live(repo.st()),
    {
        let parent = self.parent(repo)?;
        let gname = parent.name(repo)?;
        let n = self.name(repo)?;
        Ok(mod_dir_str(repo.lib_dir.as_str(), gname.as_str(), n.as_str()))
    }
}


impl Mod {
    /// Remove this mod: its node disappears (entries that referenced it go
    /// stale) and its directory tree is queued for deletion.
    pub fn remove(self, repo: &mut Repository) -> (r: Result<(), Error>)
        requires
            old(repo).wf(),
        ensures
            final(repo).wf(),
            final(repo).roots == old(repo).roots,
            final(repo).lib_dir == old(repo).lib_dir,
            r is Ok ==> {
                &&& !old(repo).poisoned && !final(repo).poisoned
                &&& self.id.live(old(repo).st())
                &&& !final(repo).st().has_node(self.id.addr as int)
                &&& final(repo).games_v() == old(repo).games_v()
                &&& final(repo).actives_v() == old(repo).actives_v()
                &&& final(repo).active_ps_v() == old(repo).active_ps_v()
                &&& (forall|g: int|
                    g != self.id.addr as int ==> final(repo).profiles_v(g) == old(repo).profiles_v(g))
                &&& (forall|g: int|
                    g != self.id.addr as int ==> final(repo).mods_v(g) == old(repo).mods_v(
                        g,
                    ).filter(crate::store::ne_addr(self.id.addr as int)))
                &&& final(repo).chains == old(repo).chains
                &&& (forall|b: int, k: Seq<char>|
                    b != self.id.addr as int ==> final(repo).st().field(b, k) == old(repo).st().field(b, k))
                &&& final(repo).fs@.len() == old(repo).fs@.len() + 1
                &&& final(repo).fs@.take(old(repo).fs@.len() as int) == old(repo).fs@
                &&& (final(repo).fs@.last() matches FsOp::RemoveDirAll(d) && (old(repo).name_of(
                    old(repo).game_in_neis(self.id.addr as int)[0],
                ) matches Some(gv) && gv matches Val::Text(n) && old(repo).name_of(
                    self.id.addr as int,
                ) matches Some(mv) && mv matches Val::Text(q) && d@ == mod_dir_spec(
                    old(repo).lib_dir@,
                    n,
                    q,
                )))
                &&& final(repo).counter_of() == old(repo).counter_of()
            },
            r is Ok ==> (forall|b: int|
                !old(repo).st().has_node(b) ==> !final(repo).st().has_node(b)),
            r matches Err(e) ==> e is RemovedEntity || e is Internal,
            r matches Err(e) && e is RemovedEntity ==> !self.id.live(old(repo).st()) && *final(repo) == *old(repo),
            r is Err ==> final(repo).st().nodes() == old(repo).st().nodes(),
    {
        if repo.poisoned {
            return Err(Repository::poisoned_err());
        }
        let dir = self.dir(repo)?;
        let a = self.id.resolve(&repo.store)?;
        match repo.store.get_value(a, "kind") {
            GetValue::Found(FieldValue::U64(code)) => {
                if code != KIND_MOD {
                    return Err(Error::Internal("handle does not refer to a mod".to_owned()));
                }
            },
            GetValue::Found(_) => {
                return Err(Error::Internal("entity kind holds a non-integer".to_owned()));
            },
            GetValue::Missing => {
                return Err(Error::Internal("entity kind is missing".to_owned()));
            },
            GetValue::Fault(m) => {
                return Err(Error::Internal(m));
            },
        }
        let ghost pre = *repo;
        proof {
            assert(repo.is_kind(a as int, KIND_MOD));
            assert(a as int != repo.roots.games as int);
            assert(a as int != repo.roots.tools as int);
            assert(a as int != repo.roots.active_game as int);
            assert(a as int != repo.roots.active_profile as int);
            assert(a as int != repo.roots.version as int);
            assert(a as int != repo.roots.counter as int);
        }
        match repo.store.remove_element(a) {
            Ok(_) => (),
            Err(f) => {
                proof {
                    crate::repo::lemma_wf_same_store_views(pre, *repo);
                }
                return Err(Error::Internal(f.message));
            },
        }
        proof {
            assert(!pre.is_profile(a as int)) by {
                if pre.is_profile(a as int) {
                    let gi = choose|gi: int|
                        0 <= gi < pre.games_v().len() && pre.profiles_v(
                            #[trigger] pre.games_v()[gi],
                        ).contains(a as int);
                    let jj = choose|jj: int|
                        0 <= jj < pre.profiles_v(pre.games_v()[gi]).len() && pre.profiles_v(
                            pre.games_v()[gi],
                        )[jj] == a as int;
                    assert(pre.profile_ok(a as int));
                }
            }
            assert forall|p: int| #[trigger] pre.chains@.dom().contains(p) implies !pre.chains@[p].contains(a as int) by {
                if pre.chains@[p].contains(a as int) {
                    let j = choose|j: int|
                        0 <= j < pre.chains@[p].len() && pre.chains@[p][j] == a as int;
                    assert(pre.chain_ok(p, pre.chains@[p]));
                    assert(pre.entry_ok(a as int));
                }
            }
            crate::repo::lemma_wf_remove_node(
                pre,
                *repo,
                a as int,
                crate::repo::ChainsMode::Untouched,
            );
            assert forall|g: int| g != a as int implies #[trigger] repo.profiles_v(g) == pre.profiles_v(
                g,
            ) by {
                assert(repo.profiles_v(g) == pre.profiles_v(g).filter(
                    crate::store::ne_addr(a as int),
                ));
                assert forall|j: int| 0 <= j < pre.profiles_v(g).len() implies crate::store::ne_addr(
                    a as int,
                )(#[trigger] pre.profiles_v(g)[j]) by {
                    crate::model::lemma_filter_sub(
                        pre.st().neis(g),
                        kind_pred(pre.st(), KIND_PROFILE),
                    );
                    assert(kind_pred(pre.st(), KIND_PROFILE)(pre.profiles_v(g)[j]));
                }
                crate::model::lemma_filter_all(pre.profiles_v(g), crate::store::ne_addr(a as int));
            }
            lemma_listing_drop_other(pre, *repo, a as int, KIND_MOD);
        }
        let ghost removed = *repo;
        repo.fs.push(FsOp::RemoveDirAll(dir));
        proof {
            crate::repo::lemma_wf_same_store(removed, *repo);
            assert(repo.st() == removed.st());
            assert forall|g: int| g != a as int implies #[trigger] repo.profiles_v(g)
                == pre.profiles_v(g) by {
                assert(repo.profiles_v(g) == removed.profiles_v(g));
            }
            assert forall|g: int| g != a as int implies #[trigger] repo.mods_v(g) == pre.mods_v(
                g,
            ).filter(crate::store::ne_addr(a as int)) by {
                assert(repo.mods_v(g) == removed.mods_v(g));
                assert(removed.mods_v(g) == pre.mods_v(g).filter(crate::store::ne_addr(a as int)));
            }
        }
        Ok(())
    }
}

/// After removing a node of one kind, every listing of other kinds is
/// unchanged: their members all carry a different kind.

#[verifier::spinoff_prover]
pub(crate) proof fn lemma_listing_drop_other(r1: Repository, r2: Repository, x: int, kind: u64)
    requires
        r1.wf_state(),
        r1.is_kind(x, kind),
        r2.games_v() == r1.games_v().filter(crate::store::ne_addr(x)),
        r2.tools_v() == r1.tools_v().filter(crate::store::ne_addr(x)),
        r2.actives_v() == r1.actives_v().filter(crate::store::ne_addr(x)),
        r2.active_ps_v() == r1.active_ps_v().filter(crate::store::ne_addr(x)),
        forall|g: int|
            g != x ==> #[trigger] r2.profiles_v(g) == r1.profiles_v(g).filter(
                crate::store::ne_addr(x),
            ),
        forall|g: int|
            g != x ==> #[trigger] r2.mods_v(g) == r1.mods_v(g).filter(crate::store::ne_addr(x)),
    ensures
        kind != KIND_GAME ==> r2.games_v() == r1.games_v() && r2.actives_v() == r1.actives_v(),
        kind != KIND_TOOL ==> r2.tools_v() == r1.tools_v(),
        kind != KIND_PROFILE ==> r2.active_ps_v() == r1.active_ps_v(),
        kind != KIND_PROFILE ==> forall|g: int|
            g != x ==> #[trigger] r2.profiles_v(g) == r1.profiles_v(g),
        kind != KIND_MOD ==> forall|g: int| g != x ==> #[trigger] r2.mods_v(g) == r1.mods_v(g),
{
    let nex = crate::store::ne_addr(x);
    if kind != KIND_PROFILE {
        assert forall|g: int| g != x implies #[trigger] r2.profiles_v(g) == r1.profiles_v(g) by {
            assert forall|j: int| 0 <= j < r1.profiles_v(g).len() implies nex(
                #[trigger] r1.profiles_v(g)[j],
            ) by {
                crate::model::lemma_filter_sub(r1.st().neis(g), kind_pred(r1.st(), KIND_PROFILE));
                assert(kind_pred(r1.st(), KIND_PROFILE)(r1.profiles_v(g)[j]));
            }
            crate::model::lemma_filter_all(r1.profiles_v(g), nex);
        }
    }
    if kind != KIND_MOD {
        assert forall|g: int| g != x implies #[trigger] r2.mods_v(g) == r1.mods_v(g) by {
            assert forall|j: int| 0 <= j < r1.mods_v(g).len() implies nex(
                #[trigger] r1.mods_v(g)[j],
            ) by {
                crate::model::lemma_filter_sub(r1.st().neis(g), kind_pred(r1.st(), KIND_MOD));
                assert(kind_pred(r1.st(), KIND_MOD)(r1.mods_v(g)[j]));
            }
            crate::model::lemma_filter_all(r1.mods_v(g), nex);
        }
    }
    let ne = crate::store::ne_addr(x);
    if kind != KIND_GAME {
        assert forall|j: int| 0 <= j < r1.games_v().len() implies ne(
            #[trigger] r1.games_v()[j],
        ) by {
            assert(r1.game_ok(r1.games_v()[j]));
        }
        crate::model::lemma_filter_all(r1.games_v(), ne);
        assert forall|j: int| 0 <= j < r1.actives_v().len() implies ne(
            #[trigger] r1.actives_v()[j],
        ) by {
            assert(r1.games_v().contains(r1.actives_v()[j]));
            let k = choose|k: int|
                0 <= k < r1.games_v().len() && r1.games_v()[k] == r1.actives_v()[j];
            assert(r1.game_ok(r1.actives_v()[j]));
        }
        crate::model::lemma_filter_all(r1.actives_v(), ne);
    }
    if kind != KIND_TOOL {
        assert forall|j: int| 0 <= j < r1.tools_v().len() implies ne(
            #[trigger] r1.tools_v()[j],
        ) by {
            assert(r1.tool_ok(r1.tools_v()[j]));
        }
        crate::model::lemma_filter_all(r1.tools_v(), ne);
    }
    if kind != KIND_PROFILE {
        assert forall|j: int| 0 <= j < r1.active_ps_v().len() implies ne(
            #[trigger] r1.active_ps_v()[j],
        ) by {
            assert(r1.is_profile(r1.active_ps_v()[j]));
            let p = r1.active_ps_v()[j];
            let gi = choose|gi: int|
                0 <= gi < r1.games_v().len() && r1.profiles_v(#[trigger] r1.games_v()[gi]).contains(
                    p,
                );
            let jj = choose|jj: int|
                0 <= jj < r1.profiles_v(r1.games_v()[gi]).len() && r1.profiles_v(
                    r1.games_v()[gi],
                )[jj] == p;
            assert(r1.profile_ok(p));
        }
        crate::model::lemma_filter_all(r1.active_ps_v(), ne);
    }
}


/// Pointing an active root at an existing target: pushing one edge from the
/// "active_game" root (when nothing is active) or from the "active_profile"
/// root (when the target's game has no active profile) preserves
/// well-formedness and changes no other listing.

#[verifier::spinoff_prover]
pub(crate) proof fn lemma_wf_point_active(
    r1: Repository,
    r2: Repository,
    t: int,
    e: GEdge,
    for_profile: bool,
)
    requires
        r1.wf_state(),
        r2.roots == r1.roots,
        r2.chains == r1.chains,
        r2.st().ok(),
        r2.st().nodes() == r1.st().nodes(),
        r2.st().edges() == r1.st().edges().push(e),
        !for_profile ==> e == (GEdge {
            eid: e.eid,
            src: r1.roots.active_game as int,
            dst: t,
        }) && r1.actives_v() == Seq::<int>::empty() && r1.games_v().contains(t),
        for_profile ==> e == (GEdge {
            eid: e.eid,
            src: r1.roots.active_profile as int,
            dst: t,
        }) && r1.is_profile(t) && !r1.active_ps_v().contains(t) && (forall|gi: int|
            0 <= gi < r1.games_v().len() && r1.profiles_v(#[trigger] r1.games_v()[gi]).contains(t)
                ==> r1.active_ps_v().filter(
                |p: int| r1.profiles_v(r1.games_v()[gi]).contains(p),
            ).len() == 0),
    ensures
        r2.wf_state(),
        r2.games_v() == r1.games_v(),
        r2.tools_v() == r1.tools_v(),
        !for_profile ==> r2.actives_v() == seq![t] && r2.active_ps_v() == r1.active_ps_v(),
        for_profile ==> r2.active_ps_v() == seq![t] + r1.active_ps_v() && r2.actives_v()
            == r1.actives_v(),
        forall|g: int|
            g != r1.roots.active_profile as int ==> r2.profiles_v(g) == r1.profiles_v(g),
        !for_profile ==> forall|g: int| r2.profiles_v(g) == r1.profiles_v(g),
        forall|g: int| r2.mods_v(g) == r1.mods_v(g),
        forall|a: int| r2.entry_neis(a) == r1.entry_neis(a),
        forall|a: int| r2.mod_neis(a) == r1.mod_neis(a),
        forall|a: int| r2.game_in_neis(a) == r1.game_in_neis(a),
{
    let src = if for_profile {
        r1.roots.active_profile as int
    } else {
        r1.roots.active_game as int
    };
    crate::model::lemma_push_edge(r1.st(), r2.st(), e);
    assert forall|sq: Seq<int>, k: u64| true implies #[trigger] sq.filter(kind_pred(r2.st(), k))
        == sq.filter(kind_pred(r1.st(), k)) by {
        assert forall|j: int| 0 <= j < sq.len() implies (kind_pred(r2.st(), k)(#[trigger] sq[j])
            <==> kind_pred(r1.st(), k)(sq[j])) by {}
        crate::model::lemma_filter_congruence(sq, kind_pred(r2.st(), k), kind_pred(r1.st(), k));
    }
    assert(r2.st().neis(src) == seq![t] + r1.st().neis(src));
    assert forall|a: int| a != src implies #[trigger] r2.st().neis(a) == r1.st().neis(a) by {}
    assert forall|a: int| a != t implies #[trigger] r2.st().in_neis(a) == r1.st().in_neis(a) by {}
    assert(r2.st().in_neis(t) == seq![src] + r1.st().in_neis(t));
    // The target carries an entity kind, the roots none.
    let tkind = if for_profile {
        KIND_PROFILE
    } else {
        KIND_GAME
    };
    assert(r1.is_kind(t, tkind)) by {
        if for_profile {
            let gi = choose|gi: int|
                0 <= gi < r1.games_v().len() && r1.profiles_v(#[trigger] r1.games_v()[gi]).contains(
                    t,
                );
            let jj = choose|jj: int|
                0 <= jj < r1.profiles_v(r1.games_v()[gi]).len() && r1.profiles_v(
                    r1.games_v()[gi],
                )[jj] == t;
            assert(r1.profile_ok(t));
        } else {
            let gi = choose|gi: int| 0 <= gi < r1.games_v().len() && r1.games_v()[gi] == t;
            assert(r1.game_ok(t));
        }
    }
    assert(r2.games_v() == r1.games_v());
    assert(r2.tools_v() == r1.tools_v());
    // The untouched pointer listing.
    if for_profile {
        assert(r2.actives_v() == r1.actives_v());
        assert(r2.active_ps_v() == seq![t] + r1.active_ps_v());
    } else {
        assert(r2.active_ps_v() == r1.active_ps_v());
        assert(r2.actives_v() == seq![t] + r1.actives_v());
        assert(r2.actives_v() =~= seq![t]);
    }
    assert forall|g: int| g != r1.roots.active_profile as int implies #[trigger] r2.profiles_v(g)
        == r1.profiles_v(g) by {
        if g == src {
            crate::game::seq_prepend_filter(t, r1.st().neis(g), kind_pred(r1.st(), KIND_PROFILE));
            assert(r2.profiles_v(g) == (seq![t] + r1.st().neis(g)).filter(
                kind_pred(r1.st(), KIND_PROFILE),
            ));
            assert(!for_profile);
            assert(!kind_pred(r1.st(), KIND_PROFILE)(t));
        }
    }
    assert forall|i: int| 0 <= i < r1.games_v().len() implies #[trigger] r1.games_v()[i]
        != r1.roots.active_profile as int by {
        assert(r1.game_ok(r1.games_v()[i]));
        assert(r1.st().field(r1.roots.active_profile as int, "kind"@) is None);
    }
    assert forall|g: int| true implies #[trigger] r2.mods_v(g) == r1.mods_v(g) by {
        if g == src {
            crate::game::seq_prepend_filter(t, r1.st().neis(g), kind_pred(r1.st(), KIND_MOD));
            assert(r2.mods_v(g) == (seq![t] + r1.st().neis(g)).filter(kind_pred(r1.st(), KIND_MOD)));
            assert(!kind_pred(r1.st(), KIND_MOD)(t));
        }
    }
    assert forall|a: int| true implies #[trigger] r2.entry_neis(a) == r1.entry_neis(a) by {
        if a == src {
            crate::game::seq_prepend_filter(t, r1.st().neis(a), kind_pred(r1.st(), KIND_ENTRY));
            assert(r2.entry_neis(a) == (seq![t] + r1.st().neis(a)).filter(
                kind_pred(r1.st(), KIND_ENTRY),
            ));
            assert(!kind_pred(r1.st(), KIND_ENTRY)(t));
        }
    }
    assert forall|a: int| true implies #[trigger] r2.mod_neis(a) == r1.mod_neis(a) by {
        if a == src {
            crate::game::seq_prepend_filter(t, r1.st().neis(a), kind_pred(r1.st(), KIND_MOD));
            assert(r2.mod_neis(a) == (seq![t] + r1.st().neis(a)).filter(kind_pred(r1.st(), KIND_MOD)));
            assert(!kind_pred(r1.st(), KIND_MOD)(t));
        }
    }
    assert forall|a: int| true implies #[trigger] r2.game_in_neis(a) == r1.game_in_neis(a) by {
        if a == t {
            crate::game::seq_prepend_filter(src, r1.st().in_neis(a), kind_pred(r1.st(), KIND_GAME));
            assert(r2.game_in_neis(a) == (seq![src] + r1.st().in_neis(a)).filter(
                kind_pred(r1.st(), KIND_GAME),
            ));
            assert(!kind_pred(r1.st(), KIND_GAME)(src)) by {
                assert(r1.st().field(src, "kind"@) is None);
            }
        }
    }
    // Well-formedness.
    assert(r2.games_ok()) by {
        assert forall|i: int| 0 <= i < r2.games_v().len() implies r2.game_ok(
            #[trigger] r2.games_v()[i],
        ) by {
            assert(r1.game_ok(r1.games_v()[i]));
        }
    }
    assert(r2.actives_ok()) by {
        if !for_profile {
            assert(r2.actives_v() =~= seq![t]);
            assert(r2.games_v().contains(t));
        } else {
            assert forall|i: int| 0 <= i < r2.actives_v().len() implies r2.games_v().contains(
                #[trigger] r2.actives_v()[i],
            ) by {
                assert(r1.games_v().contains(r1.actives_v()[i]));
            }
        }
    }
    assert forall|i: int| 0 <= i < r2.games_v().len() implies r2.game_children_ok(
        #[trigger] r2.games_v()[i],
    ) by {
        let g = r2.games_v()[i];
        assert(r1.game_children_ok(g));
        assert forall|j: int| 0 <= j < r2.profiles_v(g).len() implies r2.profile_ok(
            #[trigger] r2.profiles_v(g)[j],
        ) && r2.game_in_neis(r2.profiles_v(g)[j]) == seq![g] by {
            assert(r1.profile_ok(r1.profiles_v(g)[j]));
            assert(r1.game_in_neis(r1.profiles_v(g)[j]) == seq![g]);
        }
        assert forall|j: int| 0 <= j < r2.mods_v(g).len() implies r2.mod_ok(
            #[trigger] r2.mods_v(g)[j],
        ) && r2.game_in_neis(r2.mods_v(g)[j]) == seq![g] by {
            assert(r1.mod_ok(r1.mods_v(g)[j]));
            assert(r1.game_in_neis(r1.mods_v(g)[j]) == seq![g]);
        }
    }
    assert(r2.children_ok());
    assert forall|p: int| r2.is_profile(p) <==> r1.is_profile(p) by {
        if r1.is_profile(p) {
            let gi = choose|gi: int|
                0 <= gi < r1.games_v().len() && r1.profiles_v(#[trigger] r1.games_v()[gi]).contains(
                    p,
                );
            assert(r2.profiles_v(r2.games_v()[gi]).contains(p));
        }
        if r2.is_profile(p) {
            let gi = choose|gi: int|
                0 <= gi < r2.games_v().len() && r2.profiles_v(#[trigger] r2.games_v()[gi]).contains(
                    p,
                );
            assert(r1.profiles_v(r1.games_v()[gi]).contains(p));
        }
    }
    assert(r2.active_ps_ok()) by {
        if !for_profile {
            assert(r2.active_ps_v() == r1.active_ps_v());
            assert forall|gi: int| 0 <= gi < r2.games_v().len() implies r2.active_ps_v().filter(
                |p: int| r2.profiles_v(#[trigger] r2.games_v()[gi]).contains(p),
            ).len() <= 1 by {
                let g = r2.games_v()[gi];
                crate::model::lemma_filter_congruence(
                    r1.active_ps_v(),
                    |p: int| r2.profiles_v(g).contains(p),
                    |p: int| r1.profiles_v(g).contains(p),
                );
            }
            assert forall|i: int| 0 <= i < r2.active_ps_v().len() implies r2.is_profile(
                #[trigger] r2.active_ps_v()[i],
            ) by {
                assert(r1.is_profile(r1.active_ps_v()[i]));
            }
        } else {
            assert(r2.active_ps_v() == seq![t] + r1.active_ps_v());
            assert(r2.active_ps_v().no_duplicates()) by {
                assert(!r1.active_ps_v().contains(t));
            }
            assert forall|i: int| 0 <= i < r2.active_ps_v().len() implies r2.is_profile(
                #[trigger] r2.active_ps_v()[i],
            ) by {
                if i == 0 {
                    assert(r2.active_ps_v()[0] == t);
                } else {
                    assert(r2.active_ps_v()[i] == r1.active_ps_v()[i - 1]);
                    assert(r1.is_profile(r1.active_ps_v()[i - 1]));
                }
            }
            assert forall|gi: int| 0 <= gi < r2.games_v().len() implies r2.active_ps_v().filter(
                |p: int| r2.profiles_v(#[trigger] r2.games_v()[gi]).contains(p),
            ).len() <= 1 by {
                let g = r2.games_v()[gi];
                crate::model::lemma_filter_congruence(
                    r1.active_ps_v(),
                    |p: int| r2.profiles_v(g).contains(p),
                    |p: int| r1.profiles_v(g).contains(p),
                );
                crate::game::seq_prepend_filter(
                    t,
                    r1.active_ps_v(),
                    |p: int| r2.profiles_v(g).contains(p),
                );
                if r2.profiles_v(g).contains(t) {
                    assert(r1.profiles_v(g).contains(t));
                    assert(r1.active_ps_v().filter(
                        |p: int| r1.profiles_v(r1.games_v()[gi]).contains(p),
                    ).len() == 0);
                    assert(r1.active_ps_v().filter(|p: int| r1.profiles_v(g).contains(p)).len()
                        == 0);
                    crate::model::lemma_filter_congruence(
                        r1.active_ps_v(),
                        |p: int| r1.profiles_v(r1.games_v()[gi]).contains(p),
                        |p: int| r1.profiles_v(g).contains(p),
                    );
                    assert(r2.active_ps_v().filter(|p: int| r2.profiles_v(g).contains(p))
                        == seq![t] + r1.active_ps_v().filter(
                        |p: int| r2.profiles_v(g).contains(p),
                    ));
                } else {
                    assert(r2.active_ps_v().filter(|p: int| r2.profiles_v(g).contains(p))
                        == r1.active_ps_v().filter(|p: int| r2.profiles_v(g).contains(p)));
                }
            }
        }
    }
    assert forall|p: int| #[trigger] r2.chains@.dom().contains(p) implies r2.chain_ok(
        p,
        r2.chains@[p],
    ) by {
        assert(r1.chain_ok(p, r1.chains@[p]));
        let c = r2.chains@[p];
        assert(p != src) by {
            assert(r1.is_profile(p));
            let gi = choose|gi: int|
                0 <= gi < r1.games_v().len() && r1.profiles_v(#[trigger] r1.games_v()[gi]).contains(
                    p,
                );
            let jj = choose|jj: int|
                0 <= jj < r1.profiles_v(r1.games_v()[gi]).len() && r1.profiles_v(
                    r1.games_v()[gi],
                )[jj] == p;
            assert(r1.profile_ok(p));
            assert(r1.st().field(src, "kind"@) is None);
        }
        assert forall|i: int| 0 <= i < c.len() implies r2.entry_ok(#[trigger] c[i]) && (
        r2.mod_neis(c[i])).len() <= 1 && (r2.mod_neis(c[i]).len() == 1 ==> r2.mod_ok(
            r2.mod_neis(c[i])[0],
        )) by {
            assert(r1.entry_ok(c[i]));
            if r1.mod_neis(c[i]).len() == 1 {
                assert(r1.mod_ok(r1.mod_neis(c[i])[0]));
            }
        }
    }
    assert(r2.chains_ok());
    assert forall|i: int| 0 <= i < r2.tools_v().len() implies r2.tool_ok(
        #[trigger] r2.tools_v()[i],
    ) by {
        assert(r1.tool_ok(r1.tools_v()[i]));
    }
    assert(r2.roots_ok());
    assert(r2.counter_ok());
    assert(r2.wf_state());
}


impl Profile {
    /// Remove this profile: its entry chain is deleted first, then the node;
    /// when it was its game's active profile and a sibling remains, the first
    /// sibling is promoted. The directory tree is queued for deletion.
    pub fn remove(self, repo: &mut Repository) -> (r: Result<(), Error>)
        requires
            old(repo).wf(),
        ensures
            final(repo).wf(),
            final(repo).roots == old(repo).roots,
            final(repo).lib_dir == old(repo).lib_dir,
            r is Ok ==> {
                &&& !old(repo).poisoned && !final(repo).poisoned
                &&& self.id.live(old(repo).st())
                &&& old(repo).is_profile(self.id.addr as int)
                &&& !final(repo).st().has_node(self.id.addr as int)
                &&& (forall|j: int|
                    0 <= j < old(repo).chains@[self.id.addr as int].len() ==> !final(repo).st().has_node(#[trigger] old(repo).chains@[self.id.addr as int][j]))
                &&& final(repo).chains@ == old(repo).chains@.remove(self.id.addr as int)
                &&& final(repo).games_v() == old(repo).games_v()
                &&& final(repo).actives_v() == old(repo).actives_v()
                &&& (forall|g: int|
                    g != self.id.addr as int && !old(repo).chains@[self.id.addr as int].contains(g)
                        && g != old(repo).roots.active_profile as int ==> final(repo).profiles_v(g)
                        == old(repo).profiles_v(g).filter(
                        crate::store::ne_addr(self.id.addr as int),
                    ))
                &&& (forall|g: int|
                    g != self.id.addr as int && !old(repo).chains@[self.id.addr as int].contains(g)
                        ==> final(repo).mods_v(g) == old(repo).mods_v(g))
                &&& (!old(repo).active_ps_v().contains(self.id.addr as int) ==> final(repo).active_ps_v() == old(repo).active_ps_v())
                &&& (forall|h: EntityId|
                    h.live(old(repo).st()) && h.addr as int != self.id.addr as int && !old(repo).chains@[self.id.addr as int].contains(h.addr as int) ==> h.live(
                        final(repo).st(),
                    ))
                &&& (forall|b: int|
                    !old(repo).st().has_node(b) ==> !final(repo).st().has_node(b))
                &&& final(repo).fs@.len() == old(repo).fs@.len() + 1
                &&& final(repo).fs@.take(old(repo).fs@.len() as int) == old(repo).fs@
                &&& (final(repo).fs@.last() matches FsOp::RemoveDirAll(d) && (old(repo).name_of(
                    old(repo).game_in_neis(self.id.addr as int)[0],
                ) matches Some(gv) && gv matches Val::Text(n) && old(repo).name_of(
                    self.id.addr as int,
                ) matches Some(pv) && pv matches Val::Text(q) && d@ == profile_dir_spec(
                    old(repo).lib_dir@,
                    n,
                    q,
                )))
                &&& final(repo).counter_of() == old(repo).counter_of()
                &&& (old(repo).active_ps_v().contains(self.id.addr as int) ==> {
                    let own = old(repo).game_in_neis(self.id.addr as int)[0];
                    let rest = old(repo).profiles_v(own).filter(
                        crate::store::ne_addr(self.id.addr as int),
                    );
                    &&& (rest.len() == 0 ==> final(repo).active_ps_v() == old(repo).active_ps_v().filter(crate::store::ne_addr(self.id.addr as int)))
                    &&& (rest.len() > 0 ==> final(repo).active_ps_v() == seq![rest[0]] + old(repo).active_ps_v().filter(crate::store::ne_addr(self.id.addr as int)))
                })
            },
            r matches Err(e) ==> e is RemovedEntity || e is Internal,
            r matches Err(e) && e is RemovedEntity ==> (!self.id.live(old(repo).st()) || !old(repo).is_profile(self.id.addr as int)) && *final(repo) == *old(repo),
    {
        if repo.poisoned {
            return Err(Repository::poisoned_err());
        }
        let dir = self.dir(repo)?;
        let p = self.id.resolve(&repo.store)?;
        // The profile must be listed under a listed game.
        let g = repo.parent_game_addr(p)?;
        let listed = repo.out_neighbors(repo.roots.games)?;
        let mut li: usize = 0;
        let mut found: bool = false;
        while li < listed.len()
            invariant
                *repo == *old(repo),
                repo.wf_state(),
                !repo.poisoned,
                listed@.map_values(crate::store::addr_int()) == repo.games_v(),
                li <= listed@.len(),
                found ==> repo.games_v().contains(g as int),
                !found ==> forall|j: int| 0 <= j < li as int ==> repo.games_v()[j] != g as int,
            decreases listed@.len() - li,
        {
            if listed[li] == g {
                proof {
                    assert(listed@.map_values(crate::store::addr_int())[li as int] == g as int);
                }
                found = true;
            }
            li = li + 1;
        }
        if !found {
            proof {
                if repo.is_profile(p as int) {
                    lemma_owner_is_parent(*repo, p as int);
                }
            }
            return Err(Error::RemovedEntity);
        }
        let siblings = repo.neighbors_with_kind(g, KIND_PROFILE)?;
        let mut si: usize = 0;
        let mut member: bool = false;
        while si < siblings.len()
            invariant
                *repo == *old(repo),
                repo.wf_state(),
                !repo.poisoned,
                p == self.id.addr,
                siblings@.map_values(crate::store::addr_int()) == repo.profiles_v(g as int),
                si <= siblings@.len(),
                member ==> repo.profiles_v(g as int).contains(p as int),
                !member ==> forall|j: int|
                    0 <= j < si as int ==> repo.profiles_v(g as int)[j] != p as int,
            decreases siblings@.len() - si,
        {
            if siblings[si] == p {
                proof {
                    assert(siblings@.map_values(crate::store::addr_int())[si as int] == p as int);
                }
                member = true;
            }
            si = si + 1;
        }
        if !member {
            proof {
                if repo.is_profile(p as int) {
                    lemma_owner_is_parent(*repo, p as int);
                }
            }
            return Err(Error::RemovedEntity);
        }
        let ghost gidx = choose|gidx: int|
            0 <= gidx < repo.games_v().len() && repo.games_v()[gidx] == g as int;
        proof {
            assert(repo.is_profile(p as int)) by {
                assert(repo.profiles_v(repo.games_v()[gidx]).contains(p as int));
            }
        }
        // Is this the game's active profile?
        let actives = repo.out_neighbors(repo.roots.active_profile)?;
        let mut ai: usize = 0;
        let mut was_active: bool = false;
        while ai < actives.len()
            invariant
                *repo == *old(repo),
                repo.wf_state(),
                !repo.poisoned,
                p == self.id.addr,
                actives@.map_values(crate::store::addr_int()) == repo.active_ps_v(),
                ai <= actives@.len(),
                was_active ==> repo.active_ps_v().contains(p as int),
                !was_active ==> forall|j: int|
                    0 <= j < ai as int ==> repo.active_ps_v()[j] != p as int,
            decreases actives@.len() - ai,
        {
            if actives[ai] == p {
                proof {
                    assert(actives@.map_values(crate::store::addr_int())[ai as int] == p as int);
                }
                was_active = true;
            }
            ai = ai + 1;
        }
        // Delete the entry chain: the head first (after which the walk from
        // the profile is empty), then the now-unreachable rest.
        let entries = repo.chain_addrs(p)?;
        let ghost c0 = repo.chains@[p as int];
        let ghost pre = *repo;
        if entries.len() > 0 {
            let e0 = entries[0];
            proof {
                assert(entries@.map_values(crate::store::addr_int())[0] == e0 as int);
                assert(pre.chain_ok(p as int, c0));
                assert(pre.entry_ok(c0[0]));
                lemma_entry_not_root(pre, c0[0]);
            }
            match repo.store.remove_element(e0) {
                Ok(_) => (),
                Err(f) => {
                    proof {
                        crate::repo::lemma_wf_same_store_views(pre, *repo);
                    }
                    return Err(Error::Internal(f.message));
                },
            }
            proof {
                repo.chains@ = pre.chains@.insert(p as int, Seq::<int>::empty());
                assert(!pre.chains@.dom().contains(c0[0] as int)) by {
                    if pre.chains@.dom().contains(c0[0]) {
                        assert(pre.is_profile(c0[0]));
                        lemma_profile_not_entry(pre, c0[0]);
                    }
                }
                crate::repo::lemma_wf_remove_node(
                    pre,
                    *repo,
                    e0 as int,
                    crate::repo::ChainsMode::Beheaded(p as int),
                );
                lemma_listing_drop_other(pre, *repo, e0 as int, KIND_ENTRY);
                assert forall|q: int, j: int|
                    #[trigger] repo.chains@.dom().contains(q) && 1 <= j < c0.len() implies !repo.chains@[q].contains(
                    #[trigger] c0[j],
                ) by {
                    if q == p as int {
                        assert(repo.chains@[q] =~= Seq::<int>::empty());
                    } else {
                        assert(repo.chains@[q] == pre.chains@[q]);
                        assert(pre.chains@[p as int].contains(c0[j]));
                        if pre.chains@[q].contains(c0[j]) {
                            assert(false);
                        }
                    }
                }
            }
            // Remove the orphaned remainder of the chain.
            let mut i: usize = 1;
            while i < entries.len()
                invariant
                    pre == *old(repo),
                    repo.wf_state(),
                    !repo.poisoned,
                    repo.roots == pre.roots,
                    repo.lib_dir == pre.lib_dir,
                    repo.fs == pre.fs,
                    p == self.id.addr,
                    p > 0,
                    g > 0,
                    was_active ==> pre.active_ps_v().contains(p as int),
                    !was_active ==> !pre.active_ps_v().contains(p as int),
                    1 <= i <= entries@.len(),
                    entries@.map_values(crate::store::addr_int()) == c0,
                    c0 == pre.chains@[p as int],
                    c0.no_duplicates(),
                    repo.chains@ == pre.chains@.insert(p as int, Seq::<int>::empty()),
                    forall|j: int| 0 <= j < i as int ==> !repo.st().has_node(#[trigger] c0[j]),
                    forall|j: int|
                        i as int <= j < c0.len() ==> repo.st().has_node(#[trigger] c0[j])
                            && repo.is_kind(c0[j], KIND_ENTRY) && c0[j] > 0,
                    forall|q: int, j: int|
                        #[trigger] repo.chains@.dom().contains(q) && i as int <= j < c0.len()
                            ==> !repo.chains@[q].contains(#[trigger] c0[j]),
                    repo.games_v() == pre.games_v(),
                    repo.tools_v() == pre.tools_v(),
                    repo.actives_v() == pre.actives_v(),
                    repo.active_ps_v() == pre.active_ps_v(),
                    forall|g2: int|
                        g2 != p as int && !c0.contains(g2) ==> #[trigger] repo.profiles_v(g2)
                            == pre.profiles_v(g2),
                    forall|g2: int|
                        !c0.contains(g2) ==> #[trigger] repo.mods_v(g2) == pre.mods_v(g2),
                    forall|b: int, k: Seq<char>|
                        !c0.contains(b) ==> #[trigger] repo.st().field(b, k) == pre.st().field(b, k),
                    forall|b: int| !pre.st().has_node(b) ==> !(#[trigger] repo.st().has_node(b)),
                    repo.st().has_node(p as int),
                    repo.is_profile(p as int),
                    repo.games_v().contains(g as int),
                    repo.profiles_v(g as int).contains(p as int),
                decreases entries@.len() - i,
            {
                let e = entries[i];
                let ghost step = *repo;
                proof {
                    assert(entries@.map_values(crate::store::addr_int())[i as int] == e as int);
                    assert(repo.is_kind(e as int, KIND_ENTRY));
                    lemma_entry_not_root(*repo, e as int);
                    assert(!repo.chains@.dom().contains(e as int)) by {
                        if repo.chains@.dom().contains(e as int) {
                            assert(repo.is_profile(e as int));
                            lemma_profile_not_entry(*repo, e as int);
                        }
                    }
                }
                match repo.store.remove_element(e) {
                    Ok(_) => (),
                    Err(f) => {
                        proof {
                            crate::repo::lemma_wf_same_store_views(step, *repo);
                        }
                        return Err(Error::Internal(f.message));
                    },
                }
                proof {
                    crate::repo::lemma_wf_remove_node(
                        step,
                        *repo,
                        e as int,
                        crate::repo::ChainsMode::Untouched,
                    );
                    lemma_listing_drop_other(step, *repo, e as int, KIND_ENTRY);
                    assert forall|j: int| 0 <= j < i as int + 1 implies !repo.st().has_node(
                        #[trigger] c0[j],
                    ) by {}
                    assert forall|b: int, k: Seq<char>| !c0.contains(b) implies #[trigger] repo.st().field(
                        b,
                        k,
                    ) == pre.st().field(b, k) by {
                        assert(c0.contains(c0[i as int]));
                        assert(b != e as int);
                        assert(repo.st().field(b, k) == step.st().field(b, k));
                    }
                    assert forall|b: int| !pre.st().has_node(b) implies !(
                    #[trigger] repo.st().has_node(b)) by {
                        assert(!step.st().has_node(b));
                    }
                }
                i = i + 1;
            }
        } else {
            proof {
                assert(c0 =~= Seq::<int>::empty());
                repo.chains@ = pre.chains@.insert(p as int, Seq::<int>::empty());
                assert(repo.chains@ =~= pre.chains@);
                assert(*repo == pre || true);
                crate::repo::lemma_wf_same_store(pre, *repo);
            }
        }
        // Remove the profile node itself.
        let ghost before_p = *repo;
        proof {
            lemma_profile_not_root(before_p, p as int);
        }
        match repo.store.remove_element(p) {
            Ok(_) => (),
            Err(f) => {
                proof {
                    crate::repo::lemma_wf_same_store_views(before_p, *repo);
                }
                return Err(Error::Internal(f.message));
            },
        }
        proof {
            repo.chains@ = before_p.chains@.remove(p as int);
            assert(repo.chains@ =~= pre.chains@.remove(p as int));
            crate::repo::lemma_wf_remove_node(
                before_p,
                *repo,
                p as int,
                crate::repo::ChainsMode::Dropped,
            );
            lemma_listing_drop_other(before_p, *repo, p as int, KIND_PROFILE);
        }
        let ghost after_p = *repo;
        // Promote the first remaining sibling when this one was active.
        if was_active {
            let rest = repo.neighbors_with_kind(g, KIND_PROFILE)?;
            if rest.len() > 0 {
                let sib = rest[0];
                let ghost before_e = *repo;
                proof {
                    assert(rest@.map_values(crate::store::addr_int())[0] == sib as int);
                    assert(repo.profiles_v(g as int)[0] == sib as int);
                    assert(repo.profiles_v(g as int).contains(sib as int));
                }
                proof {
                    assert forall|g2: int| pre.games_v().contains(g2) implies #[trigger] repo.profiles_v(
                        g2,
                    ) == pre.profiles_v(g2).filter(crate::store::ne_addr(p as int)) by {
                        let k = choose|k: int|
                            0 <= k < pre.games_v().len() && pre.games_v()[k] == g2;
                        assert(pre.game_ok(g2));
                        assert(g2 != p as int) by {
                            lemma_profile_not_root(pre, p as int);
                        }
                        assert(!c0.contains(g2)) by {
                            if c0.contains(g2) {
                                let jx = choose|jx: int| 0 <= jx < c0.len() && c0[jx] == g2;
                                assert(pre.chain_ok(p as int, c0));
                                assert(pre.entry_ok(g2));
                            }
                        }
                        assert(g2 != pre.roots.active_profile as int) by {
                            assert(pre.st().field(pre.roots.active_profile as int, "kind"@) is None);
                        }
                        assert(repo.profiles_v(g2) == after_p.profiles_v(g2));
                    }
                }
                match repo.store.new_edge(repo.roots.active_profile, sib) {
                    Ok(eid) => {
                        proof {
                            lemma_promote_sibling(
                                pre,
                                before_e,
                                *repo,
                                p as int,
                                g as int,
                                gidx,
                                sib as int,
                                GEdge {
                                    eid: eid as int,
                                    src: before_e.roots.active_profile as int,
                                    dst: sib as int,
                                },
                            );
                            assert(repo.active_ps_v() == seq![sib as int]
                                + pre.active_ps_v().filter(crate::store::ne_addr(p as int)));
                            assert(before_e.profiles_v(g as int) == pre.profiles_v(
                                g as int,
                            ).filter(crate::store::ne_addr(p as int))) by {
                                assert(pre.games_v().contains(g as int));
                            }
                            assert(sib as int == pre.profiles_v(g as int).filter(
                                crate::store::ne_addr(p as int),
                            )[0]);
                        }
                    },
                    Err(f) => {
                        proof {
                            crate::repo::lemma_wf_same_store_views(before_e, *repo);
                        }
                        return Err(Error::Internal(f.message));
                    },
                }
            }
        }
        let ghost done = *repo;
        repo.fs.push(FsOp::RemoveDirAll(dir));
        proof {
            crate::repo::lemma_wf_same_store(done, *repo);
            assert(repo.st() == done.st());
            assert forall|g2: int|
                g2 != p as int && !c0.contains(g2) && g2 != pre.roots.active_profile as int implies
                #[trigger] repo.profiles_v(g2) == pre.profiles_v(g2).filter(
                crate::store::ne_addr(p as int),
            ) by {
                assert(repo.profiles_v(g2) == done.profiles_v(g2));
                assert(done.profiles_v(g2) == after_p.profiles_v(g2));
            }
            assert forall|g2: int| g2 != p as int && !c0.contains(g2) implies #[trigger] repo.mods_v(
                g2,
            ) == pre.mods_v(g2) by {
                assert(repo.mods_v(g2) == done.mods_v(g2));
                assert(done.mods_v(g2) == after_p.mods_v(g2));
            }
            assert forall|b: int| !pre.st().has_node(b) implies !(#[trigger] repo.st().has_node(
                b,
            )) by {
                assert(!before_p.st().has_node(b));
                assert(!after_p.st().has_node(b));
                assert(done.st().nodes() == after_p.st().nodes());
                assert(repo.st().nodes() == done.st().nodes());
            }
            assert forall|h: EntityId|
                h.live(old(repo).st()) && h.addr as int != p as int && !c0.contains(
                h.addr as int,
            ) implies h.live(repo.st()) by {
                let b = h.addr as int;
                assert(before_p.st().field(b, "uid"@) == pre.st().field(b, "uid"@));
                assert(after_p.st().field(b, "uid"@) == before_p.st().field(b, "uid"@));
                assert(done.st().field(b, "uid"@) == after_p.st().field(b, "uid"@)) by {
                    assert(done.st().nodes() == after_p.st().nodes());
                }
                assert(repo.st().field(b, "uid"@) == done.st().field(b, "uid"@));
            }
            if !pre.active_ps_v().contains(p as int) {
                assert(!was_active);
                assert(repo.active_ps_v() == after_p.active_ps_v());
                assert(after_p.active_ps_v() == pre.active_ps_v().filter(
                    crate::store::ne_addr(p as int),
                ));
                assert forall|j: int| 0 <= j < pre.active_ps_v().len() implies crate::store::ne_addr(
                    p as int,
                )(#[trigger] pre.active_ps_v()[j]) by {
                    assert(pre.active_ps_v().contains(pre.active_ps_v()[j]));
                }
                crate::model::lemma_filter_all(
                    pre.active_ps_v(),
                    crate::store::ne_addr(p as int),
                );
            }
        }
        Ok(())
    }
}

/// A listed entry node is none of the roots.
pub(crate) proof fn lemma_entry_not_root(r: Repository, e: int)
    requires
        r.wf_state(),
        r.is_kind(e, KIND_ENTRY),
    ensures
        e != r.roots.games as int,
        e != r.roots.tools as int,
        e != r.roots.active_game as int,
        e != r.roots.active_profile as int,
        e != r.roots.version as int,
        e != r.roots.counter as int,
        !r.is_kind(e, KIND_GAME),
{
}

/// A profile node is none of the roots.
pub(crate) proof fn lemma_profile_not_root(r: Repository, p: int)
    requires
        r.wf_state(),
        r.is_profile(p),
    ensures
        p != r.roots.games as int,
        p != r.roots.tools as int,
        p != r.roots.active_game as int,
        p != r.roots.active_profile as int,
        p != r.roots.version as int,
        p != r.roots.counter as int,
        !r.is_kind(p, KIND_GAME),
        r.profile_ok(p),
{
    let gi = choose|gi: int|
        0 <= gi < r.games_v().len() && r.profiles_v(#[trigger] r.games_v()[gi]).contains(p);
    let jj = choose|jj: int|
        0 <= jj < r.profiles_v(r.games_v()[gi]).len() && r.profiles_v(r.games_v()[gi])[jj] == p;
    assert(r.profile_ok(p));
}

/// A profile node carries the profile kind (public form for callers).
pub(crate) proof fn lemma_profile_not_root_pub2(r: Repository, p: int)
    requires
        r.wf_state(),
        r.is_profile(p),
    ensures
        !r.is_kind(p, KIND_GAME),
        r.profile_ok(p),
{
    lemma_profile_not_root(r, p);
}

/// A listed entry node is none of the roots (public form).
pub(crate) proof fn lemma_entry_not_root_pub(r: Repository, e: int)
    requires
        r.wf_state(),
        r.is_kind(e, KIND_ENTRY),
    ensures
        e != r.roots.games as int,
        e != r.roots.tools as int,
        e != r.roots.active_game as int,
        e != r.roots.active_profile as int,
        e != r.roots.version as int,
        e != r.roots.counter as int,
        !r.is_kind(e, KIND_GAME),
{
    lemma_entry_not_root(r, e);
}

/// The owner listing fact, public form.
pub(crate) proof fn lemma_owner_is_parent_pub(r: Repository, p: int)
    requires
        r.wf_state(),
        r.is_profile(p),
    ensures
        r.game_in_neis(p).len() == 1,
        r.games_v().contains(r.game_in_neis(p)[0]),
        r.profiles_v(r.game_in_neis(p)[0]).contains(p),
{
    lemma_owner_is_parent(r, p);
}

/// The drop-other listing lemma, public form.
pub(crate) proof fn lemma_listing_drop_other_pub(r1: Repository, r2: Repository, x: int, kind: u64)
    requires
        r1.wf_state(),
        r1.is_kind(x, kind),
        r2.games_v() == r1.games_v().filter(crate::store::ne_addr(x)),
        r2.tools_v() == r1.tools_v().filter(crate::store::ne_addr(x)),
        r2.actives_v() == r1.actives_v().filter(crate::store::ne_addr(x)),
        r2.active_ps_v() == r1.active_ps_v().filter(crate::store::ne_addr(x)),
        forall|g: int|
            g != x ==> #[trigger] r2.profiles_v(g) == r1.profiles_v(g).filter(
                crate::store::ne_addr(x),
            ),
        forall|g: int|
            g != x ==> #[trigger] r2.mods_v(g) == r1.mods_v(g).filter(crate::store::ne_addr(x)),
    ensures
        kind != KIND_GAME ==> r2.games_v() == r1.games_v() && r2.actives_v() == r1.actives_v(),
        kind != KIND_TOOL ==> r2.tools_v() == r1.tools_v(),
        kind != KIND_PROFILE ==> r2.active_ps_v() == r1.active_ps_v(),
        kind != KIND_PROFILE ==> forall|g: int|
            g != x ==> #[trigger] r2.profiles_v(g) == r1.profiles_v(g),
        kind != KIND_MOD ==> forall|g: int| g != x ==> #[trigger] r2.mods_v(g) == r1.mods_v(g),
{
    lemma_listing_drop_other(r1, r2, x, kind);
}

/// A profile is not entry-kind.
pub(crate) proof fn lemma_profile_not_entry(r: Repository, p: int)
    requires
        r.wf_state(),
        r.is_profile(p),
    ensures
        !r.is_kind(p, KIND_ENTRY),
{
    lemma_profile_not_root(r, p);
}

/// The game whose profile listing holds `p` is the head of `p`'s game
/// in-neighbour listing.

#[verifier::spinoff_prover]
pub(crate) proof fn lemma_owner_is_parent(r: Repository, p: int)
    requires
        r.wf_state(),
        r.is_profile(p),
    ensures
        r.game_in_neis(p).len() == 1,
        r.games_v().contains(r.game_in_neis(p)[0]),
        r.profiles_v(r.game_in_neis(p)[0]).contains(p),
{
    let gi = choose|gi: int|
        0 <= gi < r.games_v().len() && r.profiles_v(#[trigger] r.games_v()[gi]).contains(p);
    let g = r.games_v()[gi];
    let jj = choose|jj: int|
        0 <= jj < r.profiles_v(g).len() && r.profiles_v(g)[jj] == p;
    assert(r.game_in_neis(p) == seq![g]);
    assert(r.games_v().contains(g));
}

/// Promoting the first remaining sibling after removing an active profile.
#[verifier::rlimit(60)]

#[verifier::spinoff_prover]
pub(crate) proof fn lemma_promote_sibling(
    pre: Repository,
    r1: Repository,
    r2: Repository,
    p: int,
    g: int,
    gidx: int,
    sib: int,
    e: GEdge,
)
    requires
        pre.wf_state(),
        r1.wf_state(),
        pre.active_ps_v().contains(p),
        0 <= gidx < pre.games_v().len() && pre.games_v()[gidx] == g,
        pre.profiles_v(g).contains(p),
        r1.games_v() == pre.games_v(),
        r1.active_ps_v() == pre.active_ps_v().filter(crate::store::ne_addr(p)),
        forall|g2: int|
            pre.games_v().contains(g2) ==> #[trigger] r1.profiles_v(g2) == pre.profiles_v(
                g2,
            ).filter(crate::store::ne_addr(p)),
        r1.profiles_v(g).contains(sib),
        r2.roots == r1.roots,
        r2.chains == r1.chains,
        r2.st().ok(),
        r2.st().nodes() == r1.st().nodes(),
        r2.st().edges() == r1.st().edges().push(e),
        e == (GEdge { eid: e.eid, src: r1.roots.active_profile as int, dst: sib }),
        g != p,
    ensures
        r2.wf_state(),
        r2.games_v() == r1.games_v(),
        r2.actives_v() == r1.actives_v(),
        r2.active_ps_v() == seq![sib] + r1.active_ps_v(),
        forall|g2: int|
            g2 != r1.roots.active_profile as int ==> r2.profiles_v(g2) == r1.profiles_v(g2),
        forall|g2: int| r2.mods_v(g2) == r1.mods_v(g2),
{
    // The sibling's game has no active profile left.
    assert(r1.is_profile(sib)) by {
        assert(r1.games_v().contains(g)) by {
            assert(pre.games_v()[gidx] == g);
        }
        let k = choose|k: int| 0 <= k < r1.games_v().len() && r1.games_v()[k] == g;
        assert(r1.profiles_v(r1.games_v()[k]).contains(sib));
    }
    assert(!r1.active_ps_v().contains(sib)) by {
        if r1.active_ps_v().contains(sib) {
            crate::model::lemma_filter_mem(pre.active_ps_v(), crate::store::ne_addr(p), sib);
            assert(pre.active_ps_v().contains(sib));
            // Both p and sib would be counted for game g before the removal.
            let fgame = |q: int| pre.profiles_v(pre.games_v()[gidx]).contains(q);
            crate::model::lemma_filter_mem(pre.active_ps_v(), fgame, sib);
            crate::model::lemma_filter_mem(pre.active_ps_v(), fgame, p);
            assert(pre.profiles_v(g).contains(sib)) by {
                crate::model::lemma_filter_sub(pre.active_ps_v(), crate::store::ne_addr(p));
                crate::model::lemma_filter_mem(
                    pre.profiles_v(g),
                    crate::store::ne_addr(p),
                    sib,
                );
            }
            let fs = pre.active_ps_v().filter(fgame);
            assert(fs.contains(sib) && fs.contains(p));
            assert(fs.len() <= 1);
            let i1 = choose|i1: int| 0 <= i1 < fs.len() && fs[i1] == sib;
            let i2 = choose|i2: int| 0 <= i2 < fs.len() && fs[i2] == p;
            assert(sib != p) by {
                crate::model::lemma_filter_sub(pre.profiles_v(g), crate::store::ne_addr(p));
                let kk = choose|kk: int|
                    0 <= kk < r1.profiles_v(g).len() && r1.profiles_v(g)[kk] == sib;
            }
            assert(i1 != i2);
            assert(false);
        }
    }
    assert forall|gi2: int|
        0 <= gi2 < r1.games_v().len() && r1.profiles_v(#[trigger] r1.games_v()[gi2]).contains(
            sib,
        ) implies r1.active_ps_v().filter(
        |q: int| r1.profiles_v(r1.games_v()[gi2]).contains(q),
    ).len() == 0 by {
        let g2 = r1.games_v()[gi2];
        assert(g2 == g) by {
            if g2 != g {
                assert(pre.games_v().contains(g2)) by {
                    assert(pre.games_v()[gi2] == g2);
                }
                assert(r1.profiles_v(g2).contains(sib));
                assert(g2 != p) by {
                    assert(pre.game_ok(g2));
                    lemma_profile_not_root(pre, p);
                }
                crate::model::lemma_filter_sub(pre.profiles_v(g2), crate::store::ne_addr(p));
                let kk = choose|kk: int|
                    0 <= kk < r1.profiles_v(g2).len() && r1.profiles_v(g2)[kk] == sib;
                assert(pre.profiles_v(g2).contains(sib));
                assert(pre.profiles_v(g).contains(sib)) by {
                    crate::model::lemma_filter_sub(pre.profiles_v(g), crate::store::ne_addr(p));
                    crate::model::lemma_filter_mem(
                        pre.profiles_v(g),
                        crate::store::ne_addr(p),
                        sib,
                    );
                }
                let ka = choose|ka: int| 0 <= ka < pre.games_v().len() && pre.games_v()[ka] == g2;
                assert(false);
            }
        }
        let fq = |q: int| r1.profiles_v(g).contains(q);
        let fs2 = r1.active_ps_v().filter(fq);
        if fs2.len() > 0 {
            crate::model::lemma_filter_sub(r1.active_ps_v(), fq);
            let q0 = fs2[0];
            assert(r1.active_ps_v().contains(q0) && fq(q0));
            crate::model::lemma_filter_mem(pre.active_ps_v(), crate::store::ne_addr(p), q0);
            assert(pre.active_ps_v().contains(q0) && q0 != p);
            assert(pre.profiles_v(g).contains(q0)) by {
                crate::model::lemma_filter_sub(r1.profiles_v(g), crate::store::ne_addr(p));
                crate::model::lemma_filter_mem(pre.profiles_v(g), crate::store::ne_addr(p), q0);
            }
            let fgame = |q: int| pre.profiles_v(pre.games_v()[gidx]).contains(q);
            crate::model::lemma_filter_mem(pre.active_ps_v(), fgame, q0);
            crate::model::lemma_filter_mem(pre.active_ps_v(), fgame, p);
            let fsp = pre.active_ps_v().filter(fgame);
            assert(fsp.contains(q0) && fsp.contains(p));
            assert(fsp.len() <= 1);
            let i1 = choose|i1: int| 0 <= i1 < fsp.len() && fsp[i1] == q0;
            let i2 = choose|i2: int| 0 <= i2 < fsp.len() && fsp[i2] == p;
            assert(i1 != i2);
            assert(false);
        }
    }
    lemma_wf_point_active(r1, r2, sib, e, true);
}


impl Game {
    /// The profile currently active for this game, if any is pointed at.
    pub fn active_profile(&self, repo: &Repository) -> (r: Result<Option<Profile>, Error>)
        requires
            repo.wf(),
        ensures
            r matches Ok(o) ==> !repo.poisoned && self.id.live(repo.st()) && (match o {
                Some(profile) => repo.active_ps_v().contains(profile.id.addr as int)
                    && repo.profiles_v(self.id.addr as int).contains(profile.id.addr as int)
                    && profile.id.live(repo.st()),
                None => forall|j: int|
                    0 <= j < repo.active_ps_v().len() ==> !repo.profiles_v(
                        self.id.addr as int,
                    ).contains(#[trigger] repo.active_ps_v()[j]),
            }),
            r matches Err(e) ==> e is RemovedEntity || e is Internal,
            r matches Err(e) && e is RemovedEntity ==> !self.id.live(repo.st()),
    {
        if repo.poisoned {
            return Err(Repository::poisoned_err());
        }
        let g = self.id.resolve(&repo.store)?;
        let pointed = repo.out_neighbors(repo.roots.active_profile)?;
        let mine = repo.neighbors_with_kind(g, KIND_PROFILE)?;
        let mut ai: usize = 0;
        while ai < pointed.len()
            invariant
                repo.wf_state(),
                !repo.poisoned,
                g == self.id.addr,
                self.id.live(repo.st()),
                pointed@.map_values(crate::store::addr_int()) == repo.active_ps_v(),
                mine@.map_values(crate::store::addr_int()) == repo.profiles_v(g as int),
                ai <= pointed@.len(),
                forall|j: int|
                    0 <= j < ai as int ==> !repo.profiles_v(g as int).contains(
                        #[trigger] repo.active_ps_v()[j],
                    ),
            decreases pointed@.len() - ai,
        {
            let cand = pointed[ai];
            proof {
                assert(pointed@.map_values(crate::store::addr_int())[ai as int] == cand as int);
            }
            let mut mi: usize = 0;
            let mut member: bool = false;
            while mi < mine.len()
                invariant
                    repo.wf_state(),
                    mine@.map_values(crate::store::addr_int()) == repo.profiles_v(g as int),
                    g == self.id.addr,
                    mi <= mine@.len(),
                    member ==> repo.profiles_v(g as int).contains(cand as int),
                    !member ==> forall|j: int|
                        0 <= j < mi as int ==> repo.profiles_v(g as int)[j] != cand as int,
                decreases mine@.len() - mi,
            {
                if mine[mi] == cand {
                    proof {
                        assert(mine@.map_values(crate::store::addr_int())[mi as int]
                            == cand as int);
                    }
                    member = true;
                }
                mi = mi + 1;
            }
            if member {
                proof {
                    assert(repo.active_ps_v().contains(cand as int)) by {
                        assert(repo.active_ps_v()[ai as int] == cand as int);
                    }
                }
                let uid = match repo.store.get_value(cand, "uid") {
                    GetValue::Found(FieldValue::U64(u)) => u,
                    GetValue::Found(_) => {
                        return Err(Error::Internal("entity uid holds a non-integer".to_owned()));
                    },
                    GetValue::Missing => {
                        return Err(Error::Internal("entity uid is missing".to_owned()));
                    },
                    GetValue::Fault(m) => {
                        return Err(Error::Internal(m));
                    },
                };
                return Ok(Some(Profile { id: EntityId { addr: cand, uid } }));
            }
            proof {
                assert(!repo.profiles_v(g as int).contains(cand as int)) by {
                    if repo.profiles_v(g as int).contains(cand as int) {
                        let j = choose|j: int|
                            0 <= j < repo.profiles_v(g as int).len() && repo.profiles_v(
                                g as int,
                            )[j] == cand as int;
                        assert(mine@.len() == repo.profiles_v(g as int).len()) by {
                            assert(mine@.map_values(crate::store::addr_int()).len()
                                == mine@.len());
                        }
                        assert(repo.profiles_v(g as int)[j] != cand as int);
                    }
                }
            }
            ai = ai + 1;
        }
        Ok(None)
    }
}

impl Profile {
    /// Rename the profile: a no-op when the name is unchanged, otherwise the
    /// field is updated and a directory rename is queued.
    pub fn set_name(&self, repo: &mut Repository, new_name: &str) -> (r: Result<(), Error>)
        requires
            old(repo).wf(),
        ensures
            final(repo).wf(),
            final(repo).roots == old(repo).roots,
            final(repo).lib_dir == old(repo).lib_dir,
            final(repo).chains == old(repo).chains,
            final(repo).poisoned == old(repo).poisoned,
            r is Ok ==> {
                &&& !old(repo).poisoned
                &&& self.id.live(old(repo).st())
                &&& final(repo).name_of(self.id.addr as int) == Some(Val::Text(new_name@))
                &&& final(repo).games_v() == old(repo).games_v()
                &&& final(repo).actives_v() == old(repo).actives_v()
                &&& final(repo).active_ps_v() == old(repo).active_ps_v()
                &&& (forall|g: int| final(repo).profiles_v(g) == old(repo).profiles_v(g))
                &&& (forall|g: int| final(repo).mods_v(g) == old(repo).mods_v(g))
                &&& (forall|b: int, k: Seq<char>|
                    b != self.id.addr as int ==> final(repo).st().field(b, k) == old(repo).st().field(b, k))
                &&& (forall|k: Seq<char>|
                    k != "name"@ ==> final(repo).st().field(self.id.addr as int, k) == old(repo).st().field(self.id.addr as int, k))
                &&& (old(repo).name_of(self.id.addr as int) == Some(Val::Text(new_name@))
                    ==> *final(repo) == *old(repo))
                &&& (old(repo).name_of(self.id.addr as int) != Some(Val::Text(new_name@)) ==> {
                    &&& final(repo).fs@.len() == old(repo).fs@.len() + 1
                    &&& final(repo).fs@.take(old(repo).fs@.len() as int) == old(repo).fs@
                    &&& old(repo).game_in_neis(self.id.addr as int).len() > 0
                    &&& (final(repo).fs@.last() matches FsOp::Rename(d0, d1) && (old(repo).name_of(
                        old(repo).game_in_neis(self.id.addr as int)[0],
                    ) matches Some(gv) && gv matches Val::Text(n) && old(repo).name_of(
                        self.id.addr as int,
                    ) matches Some(pv) && pv matches Val::Text(q) && d0@ == profile_dir_spec(
                        old(repo).lib_dir@,
                        n,
                        q,
                    ) && d1@ == profile_dir_spec(old(repo).lib_dir@, n, new_name@)))
                })
            },
            r matches Err(e) ==> e is RemovedEntity || e is Internal,
            r matches Err(e) && e is RemovedEntity ==> !self.id.live(old(repo).st()),
            r is Err ==> final(repo).st().nodes() == old(repo).st().nodes() && final(repo).st().edges() == old(repo).st().edges(),
    {
        if repo.poisoned {
            return Err(Repository::poisoned_err());
        }
        let current = self.name(repo)?;
        if current == new_name.to_owned() {
            return Ok(());
        }
        let old_dir = self.dir(repo)?;
        let parent = self.parent(repo)?;
        let gname = parent.name(repo)?;
        let new_dir = profile_dir_str(repo.lib_dir.as_str(), gname.as_str(), new_name);
        let ghost pre = *repo;
        match crate::ids::set_field(
            &mut repo.store,
            self.id,
            "name",
            &FieldValue::Text(new_name.to_owned()),
        ) {
            Ok(()) => (),
            Err(e) => {
                proof {
                    crate::repo::lemma_wf_same_store_views(pre, *repo);
                }
                return Err(e);
            },
        }
        proof {
            lemma_field_keys();
            crate::repo::lemma_wf_entity_field(pre, *repo, self.id.addr as int);
        }
        let ghost mid = *repo;
        repo.fs.push(FsOp::Rename(old_dir, new_dir));
        proof {
            crate::repo::lemma_wf_same_store(mid, *repo);
            assert(repo.fs@.take(pre.fs@.len() as int) =~= pre.fs@);
        }
        Ok(())
    }
}


/// Removing one pointer edge out of an active root: every listing is
/// unchanged except that root's own, which loses exactly the target.
#[verifier::rlimit(60)]
#[verifier::spinoff_prover]
pub(crate) proof fn lemma_wf_unpoint(r1: Repository, r2: Repository, e: GEdge, for_profile: bool)
    requires
        r1.wf_state(),
        r2.roots == r1.roots,
        r2.chains == r1.chains,
        r2.st().ok(),
        r2.st().nodes() == r1.st().nodes(),
        r2.st().edges() == r1.st().edges().filter(crate::store::not_eid(e.eid)),
        r1.st().edges().contains(e),
        for_profile ==> e.src == r1.roots.active_profile as int,
        !for_profile ==> e.src == r1.roots.active_game as int,
    ensures
        r2.wf_state(),
        r2.games_v() == r1.games_v(),
        r2.tools_v() == r1.tools_v(),
        forall|g: int|
            g != r1.roots.active_profile as int ==> r2.profiles_v(g) == r1.profiles_v(g),
        !for_profile ==> forall|g: int| r2.profiles_v(g) == r1.profiles_v(g),
        forall|g: int| r2.mods_v(g) == r1.mods_v(g),
        forall|a: int| r2.entry_neis(a) == r1.entry_neis(a),
        forall|a: int| r2.mod_neis(a) == r1.mod_neis(a),
        forall|a: int| r2.game_in_neis(a) == r1.game_in_neis(a),
        for_profile ==> r2.active_ps_v() == r1.active_ps_v().filter(
            crate::store::ne_addr(e.dst),
        ) && r2.actives_v() == r1.actives_v(),
        !for_profile ==> r2.actives_v() == r1.actives_v().filter(crate::store::ne_addr(e.dst))
            && r2.active_ps_v() == r1.active_ps_v(),
{
    let root = e.src;
    let ne = crate::store::not_eid(e.eid);
    let net = crate::store::ne_addr(e.dst);
    // The removed identifier picks exactly this edge.
    assert forall|i: int|
        0 <= i < r1.st().edges().len() && (#[trigger] r1.st().edges()[i]).eid == e.eid implies r1.st().edges()[i]
        == e by {
        let k = choose|k: int|
            0 <= k < r1.st().edges().len() && r1.st().edges()[k] == e;
        assert(r1.st().edges()[k].eid == e.eid);
    }
    // Listings of every other node are untouched.
    assert forall|a: int| a != root implies #[trigger] r2.st().neis(a) == r1.st().neis(a) by {
        crate::model::lemma_edge_filter_frame_src(r1.st().edges(), e, a);
    }
    assert forall|a: int| a != e.dst implies #[trigger] r2.st().in_neis(a) == r1.st().in_neis(
        a,
    ) by {
        crate::model::lemma_edge_filter_frame_dst(r1.st().edges(), e, a);
    }
    // The root listing loses exactly the target.
    assert(r2.st().out_src(root) == r1.st().out_src(root).filter(ne)) by {
        crate::model::lemma_edge_filter_frame_src(r1.st().edges(), e, root);
    }
    let os = r1.st().out_src(root);
    assert(r1.st().field(root, "kind"@) is None);
    assert(r1.st().neis(root).no_duplicates()) by {
        if for_profile {
        } else {
            assert(r1.actives_v().len() <= 1);
            assert forall|i: int, j: int|
                0 <= i < r1.actives_v().len() && 0 <= j < r1.actives_v().len() && i != j implies (
            #[trigger] r1.actives_v()[i]) != (#[trigger] r1.actives_v()[j]) by {}
        }
    }
    assert(os.contains(e)) by {
        crate::model::lemma_filter_mem(r1.st().edges(), crate::store::src_is(root), e);
    }
    assert forall|i: int, j: int|
        0 <= i < os.len() && 0 <= j < os.len() && i != j implies (#[trigger] os[i]).dst != (
    #[trigger] os[j]).dst by {
        let rev = os.reverse();
        assert(r1.st().neis(root)[os.len() - 1 - i] == rev.map_values(crate::store::edge_dst())[os.len() - 1 - i]);
        assert(rev[os.len() - 1 - i] == os[i]);
        assert(rev[os.len() - 1 - j] == os[j]);
        assert(r1.st().neis(root)[os.len() - 1 - i] == os[i].dst);
        assert(r1.st().neis(root)[os.len() - 1 - j] == os[j].dst);
    }
    assert forall|i: int| 0 <= i < os.len() implies (ne(#[trigger] os[i]) <==> os[i].dst
        != e.dst) by {
        crate::model::lemma_filter_sub(r1.st().edges(), crate::store::src_is(root));
        let k = choose|k: int| 0 <= k < os.len() && os[k] == e;
        if os[i].eid == e.eid {
            assert(os[i] == e);
        }
        if os[i].dst == e.dst {
            assert(i == k);
        }
    }
    assert(r2.st().neis(root) == r1.st().neis(root).filter(net)) by {
        crate::model::lemma_filter_congruence(os, ne, |ed: GEdge| net(crate::store::edge_dst()(ed)));
        crate::model::lemma_filter_reverse(os, |ed: GEdge| net(crate::store::edge_dst()(ed)));
        crate::model::lemma_map_filter(os.reverse(), crate::store::edge_dst(), net);
    }
    // Kind filters keep their meaning: fields are untouched.
    assert forall|sq: Seq<int>, k: u64| true implies #[trigger] sq.filter(kind_pred(r2.st(), k))
        == sq.filter(kind_pred(r1.st(), k)) by {
        assert forall|j: int| 0 <= j < sq.len() implies (kind_pred(r2.st(), k)(#[trigger] sq[j])
            <==> kind_pred(r1.st(), k)(sq[j])) by {}
        crate::model::lemma_filter_congruence(sq, kind_pred(r2.st(), k), kind_pred(r1.st(), k));
    }
    assert(r2.games_v() == r1.games_v());
    assert(r2.tools_v() == r1.tools_v());
    // Root-kind listings: for the untouched root everything is equal; for the
    // edited root a kind-based listing drops only elements of that kind.
    assert forall|g: int| g != root implies #[trigger] r2.profiles_v(g) == r1.profiles_v(g)
        && r2.mods_v(g) == r1.mods_v(g) && r2.entry_neis(g) == r1.entry_neis(g) by {
        assert(r2.st().neis(g) == r1.st().neis(g));
    }
    assert(r2.mods_v(root) == r1.mods_v(root) && r2.entry_neis(root) == r1.entry_neis(root)
        && (for_profile || r2.profiles_v(root) == r1.profiles_v(root))) by {
        assert forall|j: int| 0 <= j < r1.st().neis(root).len() implies !kind_pred(
            r1.st(),
            KIND_MOD,
        )(#[trigger] r1.st().neis(root)[j]) && !kind_pred(r1.st(), KIND_ENTRY)(
            r1.st().neis(root)[j],
        ) && (for_profile || !kind_pred(r1.st(), KIND_PROFILE)(r1.st().neis(root)[j])) by {
            let t = r1.st().neis(root)[j];
            if for_profile {
                assert(r1.active_ps_v().contains(t)) by {
                    assert(r1.active_ps_v()[j] == t);
                }
                let kx = choose|kx: int|
                    0 <= kx < r1.active_ps_v().len() && r1.active_ps_v()[kx] == t;
                assert(r1.is_profile(t));
                lemma_profile_not_root_pub2(r1, t);
                assert(r1.profile_ok(t));
            } else {
                assert(r1.actives_v().contains(t)) by {
                    assert(r1.actives_v()[j] == t);
                }
                let kx = choose|kx: int| 0 <= kx < r1.actives_v().len() && r1.actives_v()[kx] == t;
                assert(r1.games_v().contains(t));
                let ky = choose|ky: int| 0 <= ky < r1.games_v().len() && r1.games_v()[ky] == t;
                assert(r1.game_ok(t));
            }
        }
        crate::model::lemma_filter_comm(r1.st().neis(root), net, kind_pred(r1.st(), KIND_MOD));
        crate::model::lemma_filter_all(
            r1.st().neis(root).filter(kind_pred(r1.st(), KIND_MOD)) + Seq::<int>::empty(),
            net,
        );
        crate::model::lemma_filter_all(r1.st().neis(root), kind_pred(r1.st(), KIND_MOD));
        crate::model::lemma_filter_all(r1.st().neis(root), kind_pred(r1.st(), KIND_ENTRY));
        assert(r1.st().neis(root).filter(kind_pred(r1.st(), KIND_MOD)) =~= Seq::<int>::empty());
        assert(r1.st().neis(root).filter(kind_pred(r1.st(), KIND_ENTRY)) =~= Seq::<int>::empty());
        assert(r2.st().neis(root).filter(kind_pred(r1.st(), KIND_MOD)) =~= Seq::<int>::empty()) by {
            crate::model::lemma_filter_sub(r1.st().neis(root), net);
            assert forall|j: int| 0 <= j < r2.st().neis(root).len() implies !kind_pred(
                r1.st(),
                KIND_MOD,
            )(#[trigger] r2.st().neis(root)[j]) by {
                assert(r1.st().neis(root).contains(r2.st().neis(root)[j]));
                let kz = choose|kz: int|
                    0 <= kz < r1.st().neis(root).len() && r1.st().neis(root)[kz] == r2.st().neis(
                        root,
                    )[j];
            }
            crate::model::lemma_filter_all(r2.st().neis(root), kind_pred(r1.st(), KIND_MOD));
        }
        assert(r2.st().neis(root).filter(kind_pred(r1.st(), KIND_ENTRY)) =~= Seq::<
            int,
        >::empty()) by {
            crate::model::lemma_filter_sub(r1.st().neis(root), net);
            assert forall|j: int| 0 <= j < r2.st().neis(root).len() implies !kind_pred(
                r1.st(),
                KIND_ENTRY,
            )(#[trigger] r2.st().neis(root)[j]) by {
                assert(r1.st().neis(root).contains(r2.st().neis(root)[j]));
                let kz = choose|kz: int|
                    0 <= kz < r1.st().neis(root).len() && r1.st().neis(root)[kz] == r2.st().neis(
                        root,
                    )[j];
            }
            crate::model::lemma_filter_all(r2.st().neis(root), kind_pred(r1.st(), KIND_ENTRY));
        }
        if !for_profile {
            crate::model::lemma_filter_all(r1.st().neis(root), kind_pred(r1.st(), KIND_PROFILE));
            assert(r1.st().neis(root).filter(kind_pred(r1.st(), KIND_PROFILE)) =~= Seq::<
                int,
            >::empty());
            assert(r2.st().neis(root).filter(kind_pred(r1.st(), KIND_PROFILE)) =~= Seq::<
                int,
            >::empty()) by {
                crate::model::lemma_filter_sub(r1.st().neis(root), net);
                assert forall|j: int| 0 <= j < r2.st().neis(root).len() implies !kind_pred(
                    r1.st(),
                    KIND_PROFILE,
                )(#[trigger] r2.st().neis(root)[j]) by {
                    assert(r1.st().neis(root).contains(r2.st().neis(root)[j]));
                    let kz = choose|kz: int|
                        0 <= kz < r1.st().neis(root).len() && r1.st().neis(root)[kz]
                            == r2.st().neis(root)[j];
                }
                crate::model::lemma_filter_all(
                    r2.st().neis(root),
                    kind_pred(r1.st(), KIND_PROFILE),
                );
            }
        }
    }
    assert forall|a: int| a != root implies #[trigger] r2.mod_neis(a) == r1.mod_neis(a)
        && r2.entry_neis(a) == r1.entry_neis(a) by {
        assert(r2.st().neis(a) == r1.st().neis(a));
    }
    // The removed edge's target keeps its parent listing: the root carries no
    // kind.
    assert forall|a: int| true implies #[trigger] r2.game_in_neis(a) == r1.game_in_neis(a) by {
        if a == e.dst {
            assert(r2.st().in_dst(a) == r1.st().in_dst(a).filter(ne)) by {
                crate::model::lemma_edge_filter_frame_dst(r1.st().edges(), e, a);
            }
            crate::model::lemma_filter_reverse(r1.st().in_dst(a), ne);
            assert(r2.st().in_dst(a).reverse() == r1.st().in_dst(a).reverse().filter(ne));
            let zs = r1.st().in_dst(a).reverse();
            assert forall|i: int|
                0 <= i < zs.len() && (#[trigger] zs[i]).eid == e.eid implies zs[i] == e by {
                assert(zs[i] == r1.st().in_dst(a)[zs.len() - 1 - i]);
                crate::model::lemma_filter_sub(r1.st().edges(), crate::store::dst_is(a));
                assert(r1.st().edges().contains(zs[i]));
                let kz = choose|kz: int|
                    0 <= kz < r1.st().edges().len() && r1.st().edges()[kz] == zs[i];
            }
            assert(!kind_pred(r1.st(), KIND_GAME)(crate::store::edge_src()(e)));
            crate::model::lemma_drop_edge_keeps_kind_listing(zs, e, kind_pred(r1.st(), KIND_GAME));
            assert(r2.game_in_neis(a) == zs.filter(ne).map_values(crate::store::edge_src()).filter(
                kind_pred(r1.st(), KIND_GAME),
            ));
        } else {
            assert(r2.st().in_neis(a) == r1.st().in_neis(a));
        }
    }
    // The active listings move as stated.
    if for_profile {
        assert(r2.active_ps_v() == r1.active_ps_v().filter(net));
        assert(r2.actives_v() == r1.actives_v()) by {
            assert(r1.roots.active_game as int != root);
        }
    } else {
        assert(r2.actives_v() == r1.actives_v().filter(net));
        assert(r2.active_ps_v() == r1.active_ps_v()) by {
            assert(r1.roots.active_profile as int != root);
        }
    }
    // Well-formedness.
    assert(r2.roots_ok());
    assert(r2.games_ok()) by {
        assert forall|i: int| 0 <= i < r2.games_v().len() implies r2.game_ok(
            #[trigger] r2.games_v()[i],
        ) by {
            assert(r1.game_ok(r1.games_v()[i]));
        }
    }
    assert(r2.actives_ok()) by {
        if !for_profile {
            r1.actives_v().lemma_filter_len(net);
            assert forall|i: int| 0 <= i < r2.actives_v().len() implies r2.games_v().contains(
                #[trigger] r2.actives_v()[i],
            ) by {
                crate::model::lemma_filter_sub(r1.actives_v(), net);
                let k = choose|k: int|
                    0 <= k < r1.actives_v().len() && r1.actives_v()[k] == r2.actives_v()[i];
                assert(r1.games_v().contains(r2.actives_v()[i]));
            }
        } else {
            assert forall|i: int| 0 <= i < r2.actives_v().len() implies r2.games_v().contains(
                #[trigger] r2.actives_v()[i],
            ) by {
                assert(r1.games_v().contains(r1.actives_v()[i]));
            }
        }
    }
    assert forall|i: int| 0 <= i < r2.games_v().len() implies r2.game_children_ok(
        #[trigger] r2.games_v()[i],
    ) by {
        let g = r2.games_v()[i];
        assert(r1.game_children_ok(g));
        assert(g != root) by {
            assert(r1.game_ok(g));
        }
        assert(r2.profiles_v(g) == r1.profiles_v(g));
        assert(r2.mods_v(g) == r1.mods_v(g));
        assert forall|j: int| 0 <= j < r2.profiles_v(g).len() implies r2.profile_ok(
            #[trigger] r2.profiles_v(g)[j],
        ) && r2.game_in_neis(r2.profiles_v(g)[j]) == seq![g] by {
            assert(r1.profile_ok(r1.profiles_v(g)[j]));
            assert(r1.game_in_neis(r1.profiles_v(g)[j]) == seq![g]);
        }
        assert forall|j: int| 0 <= j < r2.mods_v(g).len() implies r2.mod_ok(
            #[trigger] r2.mods_v(g)[j],
        ) && r2.game_in_neis(r2.mods_v(g)[j]) == seq![g] by {
            assert(r1.mod_ok(r1.mods_v(g)[j]));
            assert(r1.game_in_neis(r1.mods_v(g)[j]) == seq![g]);
        }
    }
    assert forall|i: int, j: int, p: int|
        0 <= i < r2.games_v().len() && 0 <= j < r2.games_v().len() && i != j
            && #[trigger] r2.profiles_v(r2.games_v()[i]).contains(p) implies !(
    #[trigger] r2.profiles_v(r2.games_v()[j]).contains(p)) by {
        assert(r1.game_ok(r1.games_v()[i]));
        assert(r1.game_ok(r1.games_v()[j]));
        assert(r1.profiles_v(r1.games_v()[i]).contains(p));
        if r2.profiles_v(r2.games_v()[j]).contains(p) {
            assert(r1.profiles_v(r1.games_v()[j]).contains(p));
        }
    }
    assert forall|i: int, j: int, m: int|
        0 <= i < r2.games_v().len() && 0 <= j < r2.games_v().len() && i != j
            && #[trigger] r2.mods_v(r2.games_v()[i]).contains(m) implies !(#[trigger] r2.mods_v(
        r2.games_v()[j],
    ).contains(m)) by {
        assert(r1.mods_v(r1.games_v()[i]).contains(m));
        if r2.mods_v(r2.games_v()[j]).contains(m) {
            assert(r1.mods_v(r1.games_v()[j]).contains(m));
        }
    }
    assert(r2.children_ok());
    assert forall|p: int| r2.is_profile(p) <==> r1.is_profile(p) by {
        if r1.is_profile(p) {
            let gi = choose|gi: int|
                0 <= gi < r1.games_v().len() && r1.profiles_v(#[trigger] r1.games_v()[gi]).contains(
                    p,
                );
            assert(r1.game_ok(r1.games_v()[gi]));
            assert(r1.games_v()[gi] != root);
            assert(r2.profiles_v(r2.games_v()[gi]).contains(p));
        }
        if r2.is_profile(p) {
            let gi = choose|gi: int|
                0 <= gi < r2.games_v().len() && r2.profiles_v(#[trigger] r2.games_v()[gi]).contains(
                    p,
                );
            assert(r1.game_ok(r1.games_v()[gi]));
            assert(r1.games_v()[gi] != root);
            assert(r1.profiles_v(r1.games_v()[gi]).contains(p));
        }
    }
    assert(r2.active_ps_ok()) by {
        if for_profile {
            crate::model::lemma_filter_nodup(r1.active_ps_v(), net);
            assert forall|i: int| 0 <= i < r2.active_ps_v().len() implies r2.is_profile(
                #[trigger] r2.active_ps_v()[i],
            ) by {
                crate::model::lemma_filter_sub(r1.active_ps_v(), net);
                let k = choose|k: int|
                    0 <= k < r1.active_ps_v().len() && r1.active_ps_v()[k] == r2.active_ps_v()[i];
                assert(r1.is_profile(r2.active_ps_v()[i]));
            }
            assert forall|gi: int| 0 <= gi < r2.games_v().len() implies r2.active_ps_v().filter(
                |p: int| r2.profiles_v(#[trigger] r2.games_v()[gi]).contains(p),
            ).len() <= 1 by {
                let g = r2.games_v()[gi];
                assert(r1.game_ok(g)) by {
                    assert(r1.games_v()[gi] == g);
                }
                assert(g != root);
                crate::model::lemma_filter_congruence(
                    r2.active_ps_v(),
                    |p: int| r2.profiles_v(g).contains(p),
                    |p: int| r1.profiles_v(g).contains(p),
                );
                crate::model::lemma_filter_comm(
                    r1.active_ps_v(),
                    net,
                    |p: int| r1.profiles_v(g).contains(p),
                );
                r1.active_ps_v().filter(|p: int| r1.profiles_v(g).contains(p)).lemma_filter_len(
                    net,
                );
            }
        } else {
            assert(r2.active_ps_v() == r1.active_ps_v());
            assert forall|i: int| 0 <= i < r2.active_ps_v().len() implies r2.is_profile(
                #[trigger] r2.active_ps_v()[i],
            ) by {
                assert(r1.is_profile(r1.active_ps_v()[i]));
            }
            assert forall|gi: int| 0 <= gi < r2.games_v().len() implies r2.active_ps_v().filter(
                |p: int| r2.profiles_v(#[trigger] r2.games_v()[gi]).contains(p),
            ).len() <= 1 by {
                let g = r2.games_v()[gi];
                assert(r1.game_ok(g)) by {
                    assert(r1.games_v()[gi] == g);
                }
                assert(g != root);
                crate::model::lemma_filter_congruence(
                    r1.active_ps_v(),
                    |p: int| r2.profiles_v(g).contains(p),
                    |p: int| r1.profiles_v(g).contains(p),
                );
            }
        }
    }
    assert forall|p: int| #[trigger] r2.chains@.dom().contains(p) implies r2.chain_ok(
        p,
        r2.chains@[p],
    ) by {
        assert(r1.chain_ok(p, r1.chains@[p]));
        let c = r2.chains@[p];
        assert(p != root) by {
            assert(r1.is_profile(p));
            lemma_profile_not_root_pub2(r1, p);
            assert(r1.profile_ok(p));
        }
        assert(r2.entry_neis(p) == r1.entry_neis(p));
        assert forall|i: int| 0 <= i < c.len() implies r2.entry_ok(#[trigger] c[i])
            && r2.entry_neis(c[i]) == r1.entry_neis(c[i]) && r2.mod_neis(c[i]) == r1.mod_neis(
            c[i],
        ) by {
            assert(r1.entry_ok(c[i]));
            assert(c[i] != root);
        }
        assert forall|i: int|
            0 <= i < c.len() && r2.mod_neis(#[trigger] c[i]).len() == 1 implies r2.mod_ok(
            r2.mod_neis(c[i])[0],
        ) by {
            assert(r1.mod_ok(r1.mod_neis(c[i])[0]));
        }
    }
    assert(r2.chains_ok());
    assert forall|i: int| 0 <= i < r2.tools_v().len() implies r2.tool_ok(
        #[trigger] r2.tools_v()[i],
    ) by {
        assert(r1.tool_ok(r1.tools_v()[i]));
    }
    assert(r2.counter_ok());
    assert(r2.wf_state());
}


/// After the game's current pointer (if any) was dropped, nothing points at
/// any profile of that game, so a new pointer may be inserted.
#[verifier::rlimit(40)]
#[verifier::spinoff_prover]
proof fn lemma_cleared_game(
    r0: Repository,
    r1: Repository,
    g: int,
    gidx: int,
    p: int,
    removed: bool,
    t: int,
)
    requires
        r0.wf_state(),
        r1.wf_state(),
        r1.games_v() == r0.games_v(),
        forall|g2: int|
            g2 != r0.roots.active_profile as int ==> r1.profiles_v(g2) == r0.profiles_v(g2),
        r1.roots == r0.roots,
        0 <= gidx < r0.games_v().len() && r0.games_v()[gidx] == g,
        r0.profiles_v(g).contains(p),
        removed ==> r1.active_ps_v() == r0.active_ps_v().filter(crate::store::ne_addr(t))
            && r0.active_ps_v().contains(t) && r0.profiles_v(g).contains(t),
        !removed ==> r1.active_ps_v() == r0.active_ps_v() && (forall|j: int|
            0 <= j < r0.active_ps_v().len() ==> !r0.profiles_v(g).contains(
                #[trigger] r0.active_ps_v()[j],
            )),
    ensures
        !r1.active_ps_v().contains(p),
        forall|gi: int|
            0 <= gi < r1.games_v().len() && r1.profiles_v(#[trigger] r1.games_v()[gi]).contains(p)
                ==> r1.active_ps_v().filter(
                |q: int| r1.profiles_v(r1.games_v()[gi]).contains(q),
            ).len() == 0,
{
    assert(g != r0.roots.active_profile as int) by {
        assert(r0.game_ok(g));
        assert(r0.st().field(r0.roots.active_profile as int, "kind"@) is None);
    }
    let fgame = |q: int| r0.profiles_v(r0.games_v()[gidx]).contains(q);
    assert(!r1.active_ps_v().contains(p)) by {
        if removed {
            if r1.active_ps_v().contains(p) {
                crate::model::lemma_filter_mem(r0.active_ps_v(), crate::store::ne_addr(t), p);
                assert(r0.active_ps_v().contains(p) && p != t);
                crate::model::lemma_filter_mem(r0.active_ps_v(), fgame, p);
                crate::model::lemma_filter_mem(r0.active_ps_v(), fgame, t);
                let fs = r0.active_ps_v().filter(fgame);
                assert(fs.contains(p) && fs.contains(t));
                assert(fs.len() <= 1);
                let i1 = choose|i1: int| 0 <= i1 < fs.len() && fs[i1] == p;
                let i2 = choose|i2: int| 0 <= i2 < fs.len() && fs[i2] == t;
                assert(i1 != i2);
                assert(false);
            }
        } else {
            if r1.active_ps_v().contains(p) {
                let j = choose|j: int|
                    0 <= j < r0.active_ps_v().len() && r0.active_ps_v()[j] == p;
                assert(!r0.profiles_v(g).contains(r0.active_ps_v()[j]));
            }
        }
    }
    assert forall|gi: int|
        0 <= gi < r1.games_v().len() && r1.profiles_v(#[trigger] r1.games_v()[gi]).contains(
            p,
        ) implies r1.active_ps_v().filter(
        |q: int| r1.profiles_v(r1.games_v()[gi]).contains(q),
    ).len() == 0 by {
        let g2 = r1.games_v()[gi];
        assert(g2 != r0.roots.active_profile as int) by {
            assert(r0.game_ok(g2)) by {
                assert(r0.games_v()[gi] == g2);
            }
        }
        assert(r1.profiles_v(g2) == r0.profiles_v(g2));
        assert(g2 == g) by {
            if g2 != g {
                assert(r0.profiles_v(g2).contains(p));
                assert(r0.profiles_v(g).contains(p));
                assert(false);
            }
        }
        let fq = |q: int| r1.profiles_v(g).contains(q);
        let fs2 = r1.active_ps_v().filter(fq);
        if fs2.len() > 0 {
            crate::model::lemma_filter_sub(r1.active_ps_v(), fq);
            let q0 = fs2[0];
            assert(r1.active_ps_v().contains(q0) && fq(q0));
            assert(r0.profiles_v(g).contains(q0));
            if removed {
                crate::model::lemma_filter_mem(r0.active_ps_v(), crate::store::ne_addr(t), q0);
                assert(r0.active_ps_v().contains(q0) && q0 != t);
                crate::model::lemma_filter_mem(r0.active_ps_v(), fgame, q0);
                crate::model::lemma_filter_mem(r0.active_ps_v(), fgame, t);
                let fsp = r0.active_ps_v().filter(fgame);
                assert(fsp.contains(q0) && fsp.contains(t));
                assert(fsp.len() <= 1);
                let i1 = choose|i1: int| 0 <= i1 < fsp.len() && fsp[i1] == q0;
                let i2 = choose|i2: int| 0 <= i2 < fsp.len() && fsp[i2] == t;
                assert(i1 != i2);
                assert(false);
            } else {
                let j = choose|j: int|
                    0 <= j < r0.active_ps_v().len() && r0.active_ps_v()[j] == q0;
                assert(!r0.profiles_v(g).contains(r0.active_ps_v()[j]));
                assert(false);
            }
        }
    }
}


impl Profile {
    /// Make this profile its game's active profile. The parent game must be
    /// the currently active game; otherwise the call fails with
    /// `ParentGameMismatch` and changes nothing.
    #[verifier::rlimit(60)]
    #[verifier::spinoff_prover]
    pub fn activate(&self, repo: &mut Repository) -> (r: Result<(), Error>)
        requires
            old(repo).wf(),
        ensures
            final(repo).wf(),
            final(repo).roots == old(repo).roots,
            final(repo).lib_dir == old(repo).lib_dir,
            final(repo).chains == old(repo).chains,
            final(repo).fs == old(repo).fs,
            r is Ok ==> {
                &&& !old(repo).poisoned && !final(repo).poisoned
                &&& self.id.live(old(repo).st())
                &&& old(repo).is_profile(self.id.addr as int)
                &&& old(repo).actives_v().contains(
                    old(repo).game_in_neis(self.id.addr as int)[0],
                )
                &&& final(repo).active_ps_v().len() > 0 && final(repo).active_ps_v()[0]
                    == self.id.addr as int
                &&& final(repo).games_v() == old(repo).games_v()
                &&& final(repo).actives_v() == old(repo).actives_v()
                &&& (forall|g: int|
                    g != old(repo).roots.active_profile as int ==> final(repo).profiles_v(g)
                        == old(repo).profiles_v(g))
                &&& (forall|g: int| final(repo).mods_v(g) == old(repo).mods_v(g))
                &&& (forall|b: int, k: Seq<char>|
                    final(repo).st().field(b, k) == old(repo).st().field(b, k))
                &&& ((exists|t: int|
                    old(repo).active_ps_v().contains(t) && old(repo).profiles_v(
                        old(repo).game_in_neis(self.id.addr as int)[0],
                    ).contains(t) && final(repo).active_ps_v() == seq![self.id.addr as int] + old(repo).active_ps_v().filter(#[trigger] crate::store::ne_addr(t))) || ((forall|
                    j: int,
                |
                    0 <= j < old(repo).active_ps_v().len() ==> !old(repo).profiles_v(
                        old(repo).game_in_neis(self.id.addr as int)[0],
                    ).contains(#[trigger] old(repo).active_ps_v()[j])) && final(repo).active_ps_v() == seq![self.id.addr as int] + old(repo).active_ps_v()))
            },
            r matches Err(e) ==> e is RemovedEntity || e is ParentGameMismatch || e is Internal,
            r matches Err(e) && e is RemovedEntity ==> (!self.id.live(old(repo).st()) || !old(repo).is_profile(self.id.addr as int)) && *final(repo) == *old(repo),
            r matches Err(e) && e is ParentGameMismatch ==> !old(repo).actives_v().contains(
                old(repo).game_in_neis(self.id.addr as int)[0],
            ) && *final(repo) == *old(repo),
    {
        if repo.poisoned {
            return Err(Repository::poisoned_err());
        }
        let p = self.id.resolve(&repo.store)?;
        let g = repo.confirm_profile(p)?;
        let ghost gidx = choose|gidx: int|
            0 <= gidx < repo.games_v().len() && repo.games_v()[gidx] == g as int;
        proof {
            lemma_owner_is_parent(*repo, p as int);
            assert(repo.game_in_neis(p as int)[0] == g as int) by {
                let owner = repo.game_in_neis(p as int)[0];
                assert(repo.profiles_v(owner).contains(p as int));
                let ko = choose|ko: int|
                    0 <= ko < repo.games_v().len() && repo.games_v()[ko] == owner;
                if owner != g as int {
                    assert(repo.profiles_v(g as int).contains(p as int));
                    assert(false);
                }
            }
        }
        // The scoping rule: only profiles of the active game may be activated.
        let actives = repo.out_neighbors(repo.roots.active_game)?;
        let mut ai: usize = 0;
        let mut game_active: bool = false;
        while ai < actives.len()
            invariant
                *repo == *old(repo),
                repo.wf_state(),
                !repo.poisoned,
                actives@.map_values(crate::store::addr_int()) == repo.actives_v(),
                ai <= actives@.len(),
                game_active ==> repo.actives_v().contains(g as int),
                !game_active ==> forall|j: int|
                    0 <= j < ai as int ==> repo.actives_v()[j] != g as int,
            decreases actives@.len() - ai,
        {
            if actives[ai] == g {
                proof {
                    assert(actives@.map_values(crate::store::addr_int())[ai as int] == g as int);
                }
                game_active = true;
            }
            ai = ai + 1;
        }
        if !game_active {
            proof {
                assert(!repo.actives_v().contains(g as int)) by {
                    if repo.actives_v().contains(g as int) {
                        let j = choose|j: int|
                            0 <= j < repo.actives_v().len() && repo.actives_v()[j] == g as int;
                        assert(actives@.len() == repo.actives_v().len()) by {
                            assert(actives@.map_values(crate::store::addr_int()).len()
                                == actives@.len());
                        }
                        assert(repo.actives_v()[j] != g as int);
                    }
                }
            }
            return Err(Error::ParentGameMismatch);
        }
        // Drop the game's current pointer, if one exists.
        let mine = repo.neighbors_with_kind(g, KIND_PROFILE)?;
        let targets = repo.out_neighbors(repo.roots.active_profile)?;
        let eids = match repo.store.out_edge_ids(repo.roots.active_profile) {
            Ok(v) => v,
            Err(f) => {
                return Err(Error::Internal(f.message));
            },
        };
        let ghost pre = *repo;
        let ghost rev = pre.st().out_src(pre.roots.active_profile as int).reverse();
        proof {
            assert(pre.active_ps_v().len() == rev.len()) by {
                assert(rev.map_values(crate::store::edge_dst()).len() == rev.len());
            }
            assert(eids@.len() == rev.len() && targets@.len() == rev.len()) by {
                assert(eids@.map_values(crate::store::addr_int()).len() == eids@.len());
                assert(rev.map_values(crate::store::edge_eid()).len() == rev.len());
                assert(targets@.map_values(crate::store::addr_int()).len() == targets@.len());
                assert(rev.map_values(crate::store::edge_dst()).len() == rev.len());
            }
            assert forall|i: int| 0 <= i < rev.len() implies pre.st().edges().contains(
                #[trigger] rev[i],
            ) && rev[i].src == pre.roots.active_profile as int && rev[i].dst
                == pre.active_ps_v()[i] && rev[i].eid == eids@[i] as int && targets@[i] as int
                == pre.active_ps_v()[i] by {
                crate::model::lemma_filter_sub(
                    pre.st().edges(),
                    crate::store::src_is(pre.roots.active_profile as int),
                );
                let os = pre.st().out_src(pre.roots.active_profile as int);
                assert(rev[i] == os[rev.len() - 1 - i]);
                assert(pre.active_ps_v()[i] == rev.map_values(crate::store::edge_dst())[i]);
                assert(eids@.map_values(crate::store::addr_int())[i] == rev.map_values(
                    crate::store::edge_eid(),
                )[i]);
                assert(targets@.map_values(crate::store::addr_int())[i] == pre.active_ps_v()[i]);
            }
        }
        let mut k: usize = 0;
        let mut removed: bool = false;
        let ghost mut tgt: int = 0;
        while k < targets.len() && !removed
            invariant
                pre == *old(repo),
                repo.wf(),
                repo.roots == pre.roots,
                repo.lib_dir == pre.lib_dir,
                repo.fs == pre.fs,
                repo.chains == pre.chains,
                p == self.id.addr,
                pre.wf_state(),
                !pre.poisoned,
                k <= targets@.len(),
                eids@.len() == rev.len(),
                targets@.len() == rev.len(),
                pre.active_ps_v().len() == rev.len(),
                forall|i: int|
                    0 <= i < rev.len() ==> pre.st().edges().contains(#[trigger] rev[i])
                        && rev[i].src == pre.roots.active_profile as int && rev[i].dst
                        == pre.active_ps_v()[i] && rev[i].eid == eids@[i] as int
                        && targets@[i] as int == pre.active_ps_v()[i],
                mine@.map_values(crate::store::addr_int()) == pre.profiles_v(g as int),
                !removed ==> *repo == pre && (forall|j: int|
                    0 <= j < k as int ==> !pre.profiles_v(g as int).contains(
                        #[trigger] pre.active_ps_v()[j],
                    )),
                removed ==> {
                    &&& repo.wf_state()
                    &&& !repo.poisoned
                    &&& repo.st().nodes() == pre.st().nodes()
                    &&& repo.games_v() == pre.games_v()
                    &&& (forall|g2: int|
                        g2 != pre.roots.active_profile as int ==> repo.profiles_v(g2)
                            == pre.profiles_v(g2))
                    &&& (forall|g2: int| repo.mods_v(g2) == pre.mods_v(g2))
                    &&& repo.actives_v() == pre.actives_v()
                    &&& repo.active_ps_v() == pre.active_ps_v().filter(
                        crate::store::ne_addr(tgt),
                    )
                    &&& pre.active_ps_v().contains(tgt)
                    &&& pre.profiles_v(g as int).contains(tgt)
                    &&& (forall|b: int, kk: Seq<char>|
                        repo.st().field(b, kk) == pre.st().field(b, kk))
                },
            decreases targets@.len() - k + (if removed {
                0int
            } else {
                1int
            }),
        {
            let t = targets[k];
            proof {
                assert(pre.st().edges().contains(rev[k as int]));
                assert(targets@[k as int] as int == pre.active_ps_v()[k as int]);
            }
            let mut mi: usize = 0;
            let mut member: bool = false;
            while mi < mine.len()
                invariant
                    mine@.map_values(crate::store::addr_int()) == pre.profiles_v(g as int),
                    mi <= mine@.len(),
                    member ==> pre.profiles_v(g as int).contains(t as int),
                    !member ==> forall|j: int|
                        0 <= j < mi as int ==> pre.profiles_v(g as int)[j] != t as int,
                decreases mine@.len() - mi,
            {
                if mine[mi] == t {
                    proof {
                        assert(mine@.map_values(crate::store::addr_int())[mi as int] == t as int);
                    }
                    member = true;
                }
                mi = mi + 1;
            }
            if member {
                let eid = eids[k];
                proof {
                    assert(rev[k as int].eid == eid as int);
                    assert(eid < 0) by {
                        let kk = choose|kk: int|
                            0 <= kk < pre.st().edges().len() && pre.st().edges()[kk] == rev[k as int];
                        assert(pre.st().edges()[kk].eid < 0);
                    }
                }
                match repo.store.remove_element(eid) {
                    Ok(_) => (),
                    Err(f) => {
                        proof {
                            crate::repo::lemma_wf_same_store_views(pre, *repo);
                        }
                        return Err(Error::Internal(f.message));
                    },
                }
                proof {
                    lemma_wf_unpoint(pre, *repo, rev[k as int], true);
                    tgt = rev[k as int].dst;
                }
                removed = true;
            } else {
                proof {
                    assert(!pre.profiles_v(g as int).contains(t as int)) by {
                        if pre.profiles_v(g as int).contains(t as int) {
                            let j = choose|j: int|
                                0 <= j < pre.profiles_v(g as int).len() && pre.profiles_v(
                                    g as int,
                                )[j] == t as int;
                            assert(mine@.len() == pre.profiles_v(g as int).len()) by {
                                assert(mine@.map_values(crate::store::addr_int()).len()
                                    == mine@.len());
                            }
                            assert(pre.profiles_v(g as int)[j] != t as int);
                        }
                    }
                }
                k = k + 1;
            }
        }
        proof {
            if !removed {
                assert forall|j: int| 0 <= j < pre.active_ps_v().len() implies !pre.profiles_v(
                    g as int,
                ).contains(#[trigger] pre.active_ps_v()[j]) by {
                    assert(targets@.len() == pre.active_ps_v().len());
                }
            }
            lemma_cleared_game(pre, *repo, g as int, gidx, p as int, removed, tgt);
            assert(repo.games_v().contains(g as int)) by {
                assert(repo.games_v()[gidx] == g as int);
            }
            assert(repo.is_profile(p as int)) by {
                assert(repo.profiles_v(repo.games_v()[gidx]).contains(p as int)) by {
                    assert(repo.profiles_v(g as int) == pre.profiles_v(g as int)) by {
                        assert(g as int != pre.roots.active_profile as int) by {
                            assert(pre.game_ok(g as int)) by {
                                assert(pre.games_v()[gidx] == g as int);
                            }
                            assert(pre.st().field(
                                pre.roots.active_profile as int,
                                "kind"@,
                            ) is None);
                        }
                    }
                }
            }
        }
        // Point at this profile.
        let ghost mid = *repo;
        match repo.store.new_edge(repo.roots.active_profile, p) {
            Ok(eid2) => {
                proof {
                    lemma_wf_point_active(
                        mid,
                        *repo,
                        p as int,
                        GEdge {
                            eid: eid2 as int,
                            src: mid.roots.active_profile as int,
                            dst: p as int,
                        },
                        true,
                    );
                }
                Ok(())
            },
            Err(f) => {
                proof {
                    crate::repo::lemma_wf_same_store_views(mid, *repo);
                }
                Err(Error::Internal(f.message))
            },
        }
    }
}

} // verus!