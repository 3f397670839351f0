//! The two chain-surgery lemmas: attaching a ready segment after a chain's
//! tail, and pushing an edge out of an unlisted node.
use vstd::prelude::*;

use crate::repo::{kind_pred, Repository, KIND_ENTRY, KIND_GAME, KIND_MOD, KIND_PROFILE};
use crate::store::{GEdge, Val};

verus! {

/// Attaching an orphan chain segment (internally linked, not in any chain)
/// after the current tail of a profile's chain extends that chain by the
/// segment and preserves well-formedness.

#[verifier::spinoff_prover]
pub(crate) proof fn lemma_wf_attach_segment(
    r1: Repository,
    r2: Repository,
    p: int,
    seg: Seq<int>,
    e: GEdge,
)
    requires
        r1.wf_state(),
        r2.roots == r1.roots,
        r2.st().ok(),
        r2.st().nodes() == r1.st().nodes(),
        r1.chains@.dom().contains(p),
        seg.len() > 0,
        seg.no_duplicates(),
        forall|i: int| 0 <= i < seg.len() ==> r1.entry_ok(#[trigger] seg[i]),
        forall|i: int|
            0 <= i < seg.len() - 1 ==> r1.entry_neis(#[trigger] seg[i]) == seq![seg[i + 1]],
        r1.entry_neis(seg[seg.len() - 1]) == Seq::<int>::empty(),
        forall|i: int|
            0 <= i < seg.len() ==> (#[trigger] r1.mod_neis(seg[i])).len() <= 1 && (r1.mod_neis(
                seg[i],
            ).len() == 1 ==> r1.mod_ok(r1.mod_neis(seg[i])[0])),
        forall|q: int, i: int|
            #[trigger] r1.chains@.dom().contains(q) && 0 <= i < seg.len() ==> !r1.chains@[q].contains(
                #[trigger] seg[i],
            ),
        e == (GEdge {
            eid: e.eid,
            src: (if r1.chains@[p].len() == 0 {
                p
            } else {
                r1.chains@[p].last()
            }),
            dst: seg[0],
        }),
        r2.st().edges() == r1.st().edges().push(e),
        r2.chains@ == r1.chains@.insert(p, r1.chains@[p] + seg),
    ensures
        r2.wf_state(),
        r2.games_v() == r1.games_v(),
        r2.tools_v() == r1.tools_v(),
        r2.actives_v() == r1.actives_v(),
        r2.active_ps_v() == r1.active_ps_v(),
        forall|g: int| r2.profiles_v(g) == r1.profiles_v(g),
        forall|g: int| r2.mods_v(g) == r1.mods_v(g),
        forall|b: int, k: Seq<char>| r2.st().field(b, k) == r1.st().field(b, k),
{
    let src = e.src;
    let c1 = r1.chains@[p];
    let c2 = c1 + seg;
    crate::model::lemma_push_edge(r1.st(), r2.st(), e);
    assert forall|sq: Seq<int>, k: u64| true implies #[trigger] sq.filter(kind_pred(r2.st(), k))
        == sq.filter(kind_pred(r1.st(), k)) by {
        assert forall|j: int| 0 <= j < sq.len() implies (kind_pred(r2.st(), k)(#[trigger] sq[j])
            <==> kind_pred(r1.st(), k)(sq[j])) by {}
        crate::model::lemma_filter_congruence(sq, kind_pred(r2.st(), k), kind_pred(r1.st(), k));
    }
    assert(r1.chain_ok(p, c1));
    assert(r1.is_profile(p));
    crate::profile::lemma_profile_not_root_pub2(r1, p);
    // The attach source is the profile itself or the old tail; either way its
    // entry listing was empty and gains exactly the segment head.
    assert(r1.entry_neis(src) == Seq::<int>::empty()) by {
        if c1.len() == 0 {
            assert(src == p);
        } else {
            assert(src == c1[c1.len() - 1]);
        }
    }
    assert(kind_pred(r1.st(), KIND_ENTRY)(seg[0])) by {
        assert(r1.entry_ok(seg[0]));
    }
    assert(r2.st().neis(src) == seq![seg[0]] + r1.st().neis(src));
    assert forall|a: int| a != src implies #[trigger] r2.st().neis(a) == r1.st().neis(a) by {}
    assert(r2.entry_neis(src) =~= seq![seg[0]]) by {
        crate::game::seq_prepend_filter(seg[0], r1.st().neis(src), kind_pred(r1.st(), KIND_ENTRY));
        assert(r2.entry_neis(src) == (seq![seg[0]] + r1.st().neis(src)).filter(
            kind_pred(r1.st(), KIND_ENTRY),
        ));
    }
    assert forall|a: int| a != src implies #[trigger] r2.entry_neis(a) == r1.entry_neis(a)
        && r2.mod_neis(a) == r1.mod_neis(a) by {}
    assert(r2.mod_neis(src) == r1.mod_neis(src)) by {
        crate::game::seq_prepend_filter(seg[0], r1.st().neis(src), kind_pred(r1.st(), KIND_MOD));
        assert(!kind_pred(r1.st(), KIND_MOD)(seg[0]));
        assert(r2.mod_neis(src) == (seq![seg[0]] + r1.st().neis(src)).filter(
            kind_pred(r1.st(), KIND_MOD),
        ));
    }
    assert forall|g: int| true implies #[trigger] r2.profiles_v(g) == r1.profiles_v(g)
        && r2.mods_v(g) == r1.mods_v(g) by {
        if g == src {
            crate::game::seq_prepend_filter(
                seg[0],
                r1.st().neis(g),
                kind_pred(r1.st(), KIND_PROFILE),
            );
            crate::game::seq_prepend_filter(seg[0], r1.st().neis(g), kind_pred(r1.st(), KIND_MOD));
            assert(!kind_pred(r1.st(), KIND_PROFILE)(seg[0]));
            assert(!kind_pred(r1.st(), KIND_MOD)(seg[0]));
            assert(r2.profiles_v(g) == (seq![seg[0]] + r1.st().neis(g)).filter(
                kind_pred(r1.st(), KIND_PROFILE),
            ));
            assert(r2.mods_v(g) == (seq![seg[0]] + r1.st().neis(g)).filter(
                kind_pred(r1.st(), KIND_MOD),
            ));
        }
    }
    assert(r2.games_v() == r1.games_v()) by {
        assert(src != r1.roots.games as int) by {
            if c1.len() > 0 {
                assert(r1.entry_ok(src));
            }
        }
    }
    assert(r2.tools_v() == r1.tools_v()) by {
        assert(src != r1.roots.tools as int) by {
            if c1.len() > 0 {
                assert(r1.entry_ok(src));
            }
        }
    }
    assert(r2.actives_v() == r1.actives_v()) by {
        assert(src != r1.roots.active_game as int) by {
            if c1.len() > 0 {
                assert(r1.entry_ok(src));
            }
        }
    }
    assert(r2.active_ps_v() == r1.active_ps_v()) by {
        assert(src != r1.roots.active_profile as int) by {
            if c1.len() > 0 {
                assert(r1.entry_ok(src));
            }
        }
    }
    assert forall|a: int| a != seg[0] implies #[trigger] r2.game_in_neis(a) == r1.game_in_neis(
        a,
    ) by {
        assert(r2.st().in_neis(a) == r1.st().in_neis(a));
    }
    assert(r2.game_in_neis(seg[0]) == r1.game_in_neis(seg[0])) by {
        assert(r2.st().in_neis(seg[0]) == seq![src] + r1.st().in_neis(seg[0]));
        crate::game::seq_prepend_filter(
            src,
            r1.st().in_neis(seg[0]),
            kind_pred(r1.st(), KIND_GAME),
        );
        assert(!kind_pred(r1.st(), KIND_GAME)(src)) by {
            if c1.len() > 0 {
                assert(r1.entry_ok(src));
            } else {
                assert(r1.profile_ok(src));
            }
        }
        assert(r2.game_in_neis(seg[0]) == (seq![src] + r1.st().in_neis(seg[0])).filter(
            kind_pred(r1.st(), KIND_GAME),
        ));
    }
    // Well-formedness pieces.
    assert(r2.games_ok()) by {
        assert forall|i: int| 0 <= i < r2.games_v().len() implies r2.game_ok(
            #[trigger] r2.games_v()[i],
        ) by {
            assert(r1.game_ok(r1.games_v()[i]));
        }
    }
    assert(r2.actives_ok());
    assert forall|i: int| 0 <= i < r2.games_v().len() implies r2.game_children_ok(
        #[trigger] r2.games_v()[i],
    ) by {
        let g = r2.games_v()[i];
        assert(r1.game_children_ok(g));
        assert forall|j: int| 0 <= j < r2.profiles_v(g).len() implies r2.profile_ok(
            #[trigger] r2.profiles_v(g)[j],
        ) && r2.game_in_neis(r2.profiles_v(g)[j]) == seq![g] by {
            assert(r1.profile_ok(r1.profiles_v(g)[j]));
            assert(r1.game_in_neis(r1.profiles_v(g)[j]) == seq![g]);
        }
        assert forall|j: int| 0 <= j < r2.mods_v(g).len() implies r2.mod_ok(
            #[trigger] r2.mods_v(g)[j],
        ) && r2.game_in_neis(r2.mods_v(g)[j]) == seq![g] by {
            assert(r1.mod_ok(r1.mods_v(g)[j]));
            assert(r1.game_in_neis(r1.mods_v(g)[j]) == seq![g]);
        }
    }
    assert(r2.children_ok());
    assert forall|q: int| r2.is_profile(q) <==> r1.is_profile(q) by {
        if r1.is_profile(q) {
            let gi = choose|gi: int|
                0 <= gi < r1.games_v().len() && r1.profiles_v(#[trigger] r1.games_v()[gi]).contains(
                    q,
                );
            assert(r2.profiles_v(r2.games_v()[gi]).contains(q));
        }
        if r2.is_profile(q) {
            let gi = choose|gi: int|
                0 <= gi < r2.games_v().len() && r2.profiles_v(#[trigger] r2.games_v()[gi]).contains(
                    q,
                );
            assert(r1.profiles_v(r1.games_v()[gi]).contains(q));
        }
    }
    assert(r2.active_ps_ok()) by {
        assert forall|gi: int| 0 <= gi < r2.games_v().len() implies r2.active_ps_v().filter(
            |q: int| r2.profiles_v(#[trigger] r2.games_v()[gi]).contains(q),
        ).len() <= 1 by {
            let g = r2.games_v()[gi];
            crate::model::lemma_filter_congruence(
                r1.active_ps_v(),
                |q: int| r2.profiles_v(g).contains(q),
                |q: int| r1.profiles_v(g).contains(q),
            );
        }
        assert forall|i: int| 0 <= i < r2.active_ps_v().len() implies r2.is_profile(
            #[trigger] r2.active_ps_v()[i],
        ) by {
            assert(r1.is_profile(r1.active_ps_v()[i]));
        }
    }
    // Chains: the extended chain is sound, the others untouched.
    assert forall|q: int| #[trigger] r2.chains@.dom().contains(q) implies r2.chain_ok(
        q,
        r2.chains@[q],
    ) by {
        if q == p {
            assert(r2.chains@[p] == c2);
            assert(c2.no_duplicates()) by {
                assert forall|a2: int, b2: int|
                    0 <= a2 < c2.len() && 0 <= b2 < c2.len() && a2 != b2 implies c2[a2] != c2[b2] by {
                    if a2 < c1.len() && b2 < c1.len() {
                    } else if a2 >= c1.len() && b2 >= c1.len() {
                        assert(c2[a2] == seg[a2 - c1.len()]);
                        assert(c2[b2] == seg[b2 - c1.len()]);
                    } else if a2 < c1.len() {
                        assert(c2[b2] == seg[b2 - c1.len()]);
                        assert(c1.contains(c2[a2]));
                        if c2[a2] == c2[b2] {
                            assert(r1.chains@[p].contains(seg[b2 - c1.len()]));
                        }
                    } else {
                        assert(c2[a2] == seg[a2 - c1.len()]);
                        assert(c1.contains(c2[b2]));
                        if c2[a2] == c2[b2] {
                            assert(r1.chains@[p].contains(seg[a2 - c1.len()]));
                        }
                    }
                }
            }
            assert forall|i: int| 0 <= i < c2.len() implies r2.entry_ok(#[trigger] c2[i]) && (
            r2.mod_neis(c2[i])).len() <= 1 && (r2.mod_neis(c2[i]).len() == 1 ==> r2.mod_ok(
                r2.mod_neis(c2[i])[0],
            )) && r2.entry_neis(c2[i]) == (if i + 1 < c2.len() {
                seq![c2[i + 1]]
            } else {
                Seq::<int>::empty()
            }) by {
                if i < c1.len() {
                    assert(c2[i] == c1[i]);
                    assert(r1.entry_ok(c1[i]));
                    if i == c1.len() - 1 {
                        assert(c2[i] == src);
                        assert(r2.entry_neis(src) =~= seq![seg[0]]);
                        assert(c2[i + 1] == seg[0]);
                    } else {
                        assert(c1[i] != src) by {
                            assert(c1[c1.len() - 1] == src);
                        }
                        assert(r2.entry_neis(c1[i]) == r1.entry_neis(c1[i]));
                        assert(c2[i + 1] == c1[i + 1]);
                    }
                    if r1.mod_neis(c1[i]).len() == 1 {
                        assert(r1.mod_ok(r1.mod_neis(c1[i])[0]));
                    }
                    assert(c1[i] != src || i == c1.len() - 1);
                    assert(r2.mod_neis(c2[i]) == r1.mod_neis(c2[i]));
                } else {
                    let k = i - c1.len();
                    assert(c2[i] == seg[k]);
                    assert(r1.entry_ok(seg[k]));
                    assert(seg[k] != src) by {
                        if c1.len() == 0 {
                            assert(r1.profile_ok(src));
                            assert(r1.entry_ok(seg[k]));
                        } else {
                            assert(c1.contains(src)) by {
                                assert(c1[c1.len() - 1] == src);
                            }
                            assert(!r1.chains@[p].contains(seg[k]));
                        }
                    }
                    assert(r2.entry_neis(seg[k]) == r1.entry_neis(seg[k]));
                    assert(r2.mod_neis(seg[k]) == r1.mod_neis(seg[k]));
                    if k + 1 < seg.len() {
                        assert(c2[i + 1] == seg[k + 1]);
                    }
                    if r1.mod_neis(seg[k]).len() == 1 {
                        assert(r1.mod_ok(r1.mod_neis(seg[k])[0]));
                    }
                }
            }
            assert(r2.entry_neis(p) == (if c2.len() == 0 {
                Seq::<int>::empty()
            } else {
                seq![c2[0]]
            })) by {
                if c1.len() == 0 {
                    assert(src == p);
                    assert(c2[0] == seg[0]);
                    assert(r2.entry_neis(p) =~= seq![seg[0]]);
                } else {
                    assert(p != src) by {
                        assert(r1.entry_ok(src));
                        assert(r1.profile_ok(p));
                    }
                    assert(r2.entry_neis(p) == r1.entry_neis(p));
                    assert(c2[0] == c1[0]);
                }
            }
            assert(r2.chain_ok(p, c2));
        } else {
            assert(r1.chain_ok(q, r1.chains@[q]));
            let c = r2.chains@[q];
            assert(c == r1.chains@[q]);
            assert forall|i: int| 0 <= i < c.len() implies r2.entry_ok(#[trigger] c[i]) && (
            r2.mod_neis(c[i])).len() <= 1 && (r2.mod_neis(c[i]).len() == 1 ==> r2.mod_ok(
                r2.mod_neis(c[i])[0],
            )) && r2.entry_neis(c[i]) == r1.entry_neis(c[i]) by {
                assert(r1.entry_ok(c[i]));
                assert(c[i] != src) by {
                    if c1.len() == 0 {
                        assert(r1.profile_ok(src));
                    } else {
                        assert(r1.chains@[p].contains(src)) by {
                            assert(c1[c1.len() - 1] == src);
                        }
                        assert(r1.chains@[q].contains(c[i]));
                    }
                }
                if r1.mod_neis(c[i]).len() == 1 {
                    assert(r1.mod_ok(r1.mod_neis(c[i])[0]));
                }
            }
            assert(r2.entry_neis(q) == r1.entry_neis(q)) by {
                assert(q != src) by {
                    if c1.len() == 0 {
                        assert(src == p);
                    } else {
                        assert(r1.entry_ok(src)) by {
                            assert(c1[c1.len() - 1] == src);
                        }
                        crate::profile::lemma_profile_not_root_pub2(r1, q);
                        assert(r1.profile_ok(q));
                    }
                }
            }
            assert(r2.chain_ok(q, c));
        }
    }
    assert forall|p1: int, p2: int, en: int|
        r2.chains@.dom().contains(p1) && r2.chains@.dom().contains(p2) && p1 != p2
            && #[trigger] r2.chains@[p1].contains(en) implies !(#[trigger] r2.chains@[p2].contains(
        en,
    )) by {
        assert forall|q: int, y: int| #[trigger] r2.chains@.dom().contains(q) && q != p
            && #[trigger] r2.chains@[q].contains(y) implies !c2.contains(y) by {
            assert(r1.chains@[q].contains(y));
            if c2.contains(y) {
                let jx = choose|jx: int| 0 <= jx < c2.len() && c2[jx] == y;
                if jx < c1.len() {
                    assert(r1.chains@[p].contains(y));
                } else {
                    assert(y == seg[jx - c1.len()]);
                }
            }
        }
        if p1 == p {
        } else if p2 == p {
            assert(r1.chains@[p1].contains(en));
        } else {
            assert(r1.chains@[p1].contains(en));
            if r2.chains@[p2].contains(en) {
                assert(r1.chains@[p2].contains(en));
            }
        }
    }
    assert(r2.chains_ok());
    assert forall|i: int| 0 <= i < r2.tools_v().len() implies r2.tool_ok(
        #[trigger] r2.tools_v()[i],
    ) by {
        assert(r1.tool_ok(r1.tools_v()[i]));
    }
    assert(r2.roots_ok()) by {
        assert(src != r1.roots.version as int && src != r1.roots.counter as int) by {
            if c1.len() > 0 {
                assert(r1.entry_ok(src));
            }
        }
    }
    assert(r2.counter_ok());
    assert(r2.wf_state());
}


/// Pushing one edge out of a node that nothing lists (no edge touches it and
/// it is no root) preserves well-formedness and every listing.

#[verifier::spinoff_prover]
pub(crate) proof fn lemma_wf_push_from_unlisted(r1: Repository, r2: Repository, e: GEdge)
    requires
        r1.wf_state(),
        r2.roots == r1.roots,
        r2.chains == r1.chains,
        r2.st().ok(),
        r2.st().nodes() == r1.st().nodes(),
        r2.st().edges() == r1.st().edges().push(e),
        forall|i: int|
            0 <= i < r1.st().edges().len() ==> (#[trigger] r1.st().edges()[i]).dst != e.src
                && r1.st().edges()[i].src != e.src,
        !r1.is_kind(e.src, KIND_GAME),
        !r1.chains@.dom().contains(e.src),
        forall|q: int|
            #[trigger] r1.chains@.dom().contains(q) ==> !r1.chains@[q].contains(e.src),
        e.src != r1.roots.games as int,
        e.src != r1.roots.tools as int,
        e.src != r1.roots.active_game as int,
        e.src != r1.roots.active_profile as int,
        e.src != r1.roots.version as int,
        e.src != r1.roots.counter as int,
    ensures
        r2.wf_state(),
        r2.games_v() == r1.games_v(),
        r2.tools_v() == r1.tools_v(),
        r2.actives_v() == r1.actives_v(),
        r2.active_ps_v() == r1.active_ps_v(),
        forall|g: int| g != e.src ==> r2.profiles_v(g) == r1.profiles_v(g),
        forall|g: int| g != e.src ==> r2.mods_v(g) == r1.mods_v(g),
        forall|a: int| a != e.src ==> r2.entry_neis(a) == r1.entry_neis(a),
        forall|a: int| a != e.src ==> r2.mod_neis(a) == r1.mod_neis(a),
        forall|a: int| r2.game_in_neis(a) == r1.game_in_neis(a),
        forall|b: int, k: Seq<char>| r2.st().field(b, k) == r1.st().field(b, k),
        r2.st().neis(e.src) == seq![e.dst] + r1.st().neis(e.src),
{
    crate::model::lemma_unlisted(r1.st(), e.src);
    crate::model::lemma_push_edge(r1.st(), r2.st(), e);
    assert forall|sq: Seq<int>, k: u64| true implies #[trigger] sq.filter(kind_pred(r2.st(), k))
        == sq.filter(kind_pred(r1.st(), k)) by {
        assert forall|j: int| 0 <= j < sq.len() implies (kind_pred(r2.st(), k)(#[trigger] sq[j])
            <==> kind_pred(r1.st(), k)(sq[j])) by {}
        crate::model::lemma_filter_congruence(sq, kind_pred(r2.st(), k), kind_pred(r1.st(), k));
    }
    assert forall|a: int| a != e.src implies #[trigger] r2.st().neis(a) == r1.st().neis(a) by {}
    assert forall|a: int| a != e.dst implies #[trigger] r2.st().in_neis(a) == r1.st().in_neis(
        a,
    ) by {}
    assert(r2.games_v() == r1.games_v());
    assert(r2.tools_v() == r1.tools_v());
    assert(r2.actives_v() == r1.actives_v());
    assert(r2.active_ps_v() == r1.active_ps_v());
    assert(r2.game_in_neis(e.dst) == r1.game_in_neis(e.dst)) by {
        assert(r2.st().in_neis(e.dst) == seq![e.src] + r1.st().in_neis(e.dst));
        crate::game::seq_prepend_filter(
            e.src,
            r1.st().in_neis(e.dst),
            kind_pred(r1.st(), KIND_GAME),
        );
        assert(!kind_pred(r1.st(), KIND_GAME)(e.src));
        assert(r2.game_in_neis(e.dst) == (seq![e.src] + r1.st().in_neis(e.dst)).filter(
            kind_pred(r1.st(), KIND_GAME),
        ));
    }
    assert(r2.games_ok()) by {
        assert forall|i: int| 0 <= i < r2.games_v().len() implies r2.game_ok(
            #[trigger] r2.games_v()[i],
        ) by {
            assert(r1.game_ok(r1.games_v()[i]));
        }
    }
    assert(r2.actives_ok());
    assert forall|i: int| 0 <= i < r2.games_v().len() implies r2.game_children_ok(
        #[trigger] r2.games_v()[i],
    ) by {
        let g = r2.games_v()[i];
        assert(r1.game_children_ok(g));
        assert(g != e.src) by {
            assert(r1.game_ok(g));
        }
        assert forall|j: int| 0 <= j < r2.profiles_v(g).len() implies r2.profile_ok(
            #[trigger] r2.profiles_v(g)[j],
        ) && r2.game_in_neis(r2.profiles_v(g)[j]) == seq![g] by {
            assert(r1.profile_ok(r1.profiles_v(g)[j]));
            assert(r1.game_in_neis(r1.profiles_v(g)[j]) == seq![g]);
        }
        assert forall|j: int| 0 <= j < r2.mods_v(g).len() implies r2.mod_ok(
            #[trigger] r2.mods_v(g)[j],
        ) && r2.game_in_neis(r2.mods_v(g)[j]) == seq![g] by {
            assert(r1.mod_ok(r1.mods_v(g)[j]));
            assert(r1.game_in_neis(r1.mods_v(g)[j]) == seq![g]);
        }
    }
    assert(r2.children_ok());
    assert forall|q: int| r2.is_profile(q) <==> r1.is_profile(q) by {
        if r1.is_profile(q) {
            let gi = choose|gi: int|
                0 <= gi < r1.games_v().len() && r1.profiles_v(#[trigger] r1.games_v()[gi]).contains(
                    q,
                );
            assert(r1.games_v()[gi] != e.src) by {
                assert(r1.game_ok(r1.games_v()[gi]));
            }
            assert(r2.profiles_v(r2.games_v()[gi]).contains(q));
        }
        if r2.is_profile(q) {
            let gi = choose|gi: int|
                0 <= gi < r2.games_v().len() && r2.profiles_v(#[trigger] r2.games_v()[gi]).contains(
                    q,
                );
            assert(r2.games_v()[gi] != e.src) by {
                assert(r1.game_ok(r1.games_v()[gi]));
            }
            assert(r1.profiles_v(r1.games_v()[gi]).contains(q));
        }
    }
    assert(r2.active_ps_ok()) by {
        assert forall|gi: int| 0 <= gi < r2.games_v().len() implies r2.active_ps_v().filter(
            |q: int| r2.profiles_v(#[trigger] r2.games_v()[gi]).contains(q),
        ).len() <= 1 by {
            let g = r2.games_v()[gi];
            assert(g != e.src) by {
                assert(r1.game_ok(g));
            }
            crate::model::lemma_filter_congruence(
                r1.active_ps_v(),
                |q: int| r2.profiles_v(g).contains(q),
                |q: int| r1.profiles_v(g).contains(q),
            );
        }
        assert forall|i: int| 0 <= i < r2.active_ps_v().len() implies r2.is_profile(
            #[trigger] r2.active_ps_v()[i],
        ) by {
            assert(r1.is_profile(r1.active_ps_v()[i]));
        }
    }
    assert forall|q: int| #[trigger] r2.chains@.dom().contains(q) implies r2.chain_ok(
        q,
        r2.chains@[q],
    ) by {
        assert(r1.chain_ok(q, r1.chains@[q]));
        let c = r2.chains@[q];
        assert(q != e.src);
        assert(r2.entry_neis(q) == r1.entry_neis(q));
        assert forall|i: int| 0 <= i < c.len() implies r2.entry_ok(#[trigger] c[i])
            && r2.entry_neis(c[i]) == r1.entry_neis(c[i]) && r2.mod_neis(c[i]) == r1.mod_neis(
            c[i],
        ) by {
            assert(r1.entry_ok(c[i]));
            assert(c[i] != e.src);
        }
        assert forall|i: int|
            0 <= i < c.len() && r2.mod_neis(#[trigger] c[i]).len() == 1 implies r2.mod_ok(
            r2.mod_neis(c[i])[0],
        ) by {
            assert(r1.mod_ok(r1.mod_neis(c[i])[0]));
        }
    }
    assert(r2.chains_ok());
    assert forall|i: int| 0 <= i < r2.tools_v().len() implies r2.tool_ok(
        #[trigger] r2.tools_v()[i],
    ) by {
        assert(r1.tool_ok(r1.tools_v()[i]));
    }
    assert(r2.roots_ok());
    assert(r2.counter_ok());
    assert(r2.wf_state());
}

/// Pointing a blank, unlisted entry node at a well-shaped mod: the push
/// preserves well-formedness and leaves the entry with exactly the shape of
/// a one-element chain segment.
#[verifier::spinoff_prover]
pub(crate) proof fn lemma_point_entry(
    r1: Repository,
    r2: Repository,
    addr: int,
    uid: u64,
    m: int,
    eid: int,
)
    requires
        r1.wf_state(),
        r2.roots == r1.roots,
        r2.chains == r1.chains,
        r2.st().ok(),
        r2.st().nodes() == r1.st().nodes(),
        r2.st().edges() == r1.st().edges().push(GEdge { eid: eid, src: addr, dst: m }),
        addr > 0,
        r1.st().has_node(addr),
        r1.st().field(addr, "kind"@) == Some(Val::U64(KIND_ENTRY)),
        r1.st().field(addr, "uid"@) == Some(Val::U64(uid)),
        r1.st().field(addr, "enabled"@) == Some(Val::U64(1)),
        r1.st().field(addr, "notes"@) matches Some(v) && v is Text,
        forall|i: int|
            0 <= i < r1.st().edges().len() ==> (#[trigger] r1.st().edges()[i]).dst != addr
                && r1.st().edges()[i].src != addr,
        m > 0,
        r1.st().has_node(m),
        r1.st().field(m, "kind"@) == Some(Val::U64(KIND_MOD)),
        r1.st().field(m, "uid"@) matches Some(v) && v is U64,
        r1.st().field(m, "name"@) matches Some(v) && v is Text,
    ensures
        r2.wf_state(),
        r2.games_v() == r1.games_v(),
        r2.tools_v() == r1.tools_v(),
        r2.actives_v() == r1.actives_v(),
        r2.active_ps_v() == r1.active_ps_v(),
        forall|g2: int| g2 != addr ==> r2.profiles_v(g2) == r1.profiles_v(g2),
        forall|b: int, k: Seq<char>| r2.st().field(b, k) == r1.st().field(b, k),
        forall|b: int| r2.st().has_node(b) <==> r1.st().has_node(b),
        r2.entry_ok(addr),
        r2.entry_neis(addr) == Seq::<int>::empty(),
        r2.mod_neis(addr) == seq![m],
        r2.mod_ok(m),
{
    let e = GEdge { eid: eid, src: addr, dst: m };
    assert(!r1.is_kind(addr, KIND_GAME));
    assert(!r1.chains@.dom().contains(addr)) by {
        if r1.chains@.dom().contains(addr) {
            assert(r1.is_profile(addr));
            let gi = choose|gi: int|
                0 <= gi < r1.games_v().len() && r1.profiles_v(#[trigger] r1.games_v()[gi]).contains(
                    addr,
                );
            let jj = choose|jj: int|
                0 <= jj < r1.profiles_v(r1.games_v()[gi]).len() && r1.profiles_v(
                    r1.games_v()[gi],
                )[jj] == addr;
            assert(r1.profile_ok(addr));
        }
    }
    crate::model::lemma_unlisted(r1.st(), addr);
    assert forall|q: int| #[trigger] r1.chains@.dom().contains(q) implies !r1.chains@[q].contains(
        addr,
    ) by {
        if r1.chains@[q].contains(addr) {
            assert(r1.chain_ok(q, r1.chains@[q]));
            let cq = r1.chains@[q];
            let jx = choose|jx: int| 0 <= jx < cq.len() && cq[jx] == addr;
            if jx == 0 {
                assert(r1.entry_neis(q) == seq![addr]);
                crate::model::lemma_filter_sub(r1.st().neis(q), kind_pred(r1.st(), KIND_ENTRY));
                assert(r1.entry_neis(q)[0] == addr);
                assert(r1.st().neis(q).contains(addr));
            } else {
                assert(r1.entry_neis(cq[jx - 1]) == seq![addr]);
                crate::model::lemma_filter_sub(
                    r1.st().neis(cq[jx - 1]),
                    kind_pred(r1.st(), KIND_ENTRY),
                );
                assert(r1.entry_neis(cq[jx - 1])[0] == addr);
                assert(r1.st().neis(cq[jx - 1]).contains(addr));
            }
        }
    }
    lemma_wf_push_from_unlisted(r1, r2, e);
    crate::mod_entry::lemma_new_entry_shape(r1, r2, addr, m, uid);
}

} // verus!
