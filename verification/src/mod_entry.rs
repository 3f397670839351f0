//! Mod entries: a profile's load list, stored as a singly linked chain of
//! entry nodes, each pointing at its referenced mod.
use vstd::prelude::*;

use crate::errors::Error;
use crate::ids::{get_flag, get_text, EntityId};
use crate::profile::{Mod, Profile};
use crate::repo::{kind_pred, lemma_field_keys, Repository, KIND_ENTRY, KIND_GAME, KIND_MOD, KIND_PROFILE};
use crate::store::{FieldValue, GEdge, GetValue, Val};

verus! {

/// A handle on one mod entry: the entry node, and the referenced mod when
/// the walk found one (a removed mod leaves the reference dangling).
#[derive(Debug, Clone, Copy)]
pub struct ModEntry {
    pub entry_id: EntityId,
    pub mod_id: Option<EntityId>,
}

impl ModEntry {
    /// The name of the referenced mod; a dangling reference reads as removed.
    pub fn name(&self, repo: &Repository) -> (r: Result<String, Error>)
        requires
            repo.wf(),
        ensures
            r matches Ok(t) ==> !repo.poisoned && (self.mod_id matches Some(m) && m.live(repo.st())
                && repo.name_of(m.addr as int) == Some(Val::Text(t@))),
            r matches Err(e) ==> e is RemovedEntity || e is Internal,
            r matches Err(e) && e is RemovedEntity ==> self.mod_id is None || (
            self.mod_id matches Some(m) && !m.live(repo.st())),
    {
        if repo.poisoned {
            return Err(Repository::poisoned_err());
        }
        match self.mod_id {
            Some(m) => get_text(&repo.store, m, "name"),
            None => Err(Error::RemovedEntity),
        }
    }

    /// Whether this entry is enabled.
    pub fn enabled(&self, repo: &Repository) -> (r: Result<bool, Error>)
        requires
            repo.wf(),
        ensures
            r matches Ok(b) ==> !repo.poisoned && self.entry_id.live(repo.st()) && (repo.st().field(
                self.entry_id.addr as int,
                "enabled"@,
            ) matches Some(v) && v matches Val::U64(u) && (b <==> u != 0)),
            r matches Err(e) ==> e is RemovedEntity || e is Internal,
            r matches Err(e) && e is RemovedEntity ==> !self.entry_id.live(repo.st()),
    {
        if repo.poisoned {
            return Err(Repository::poisoned_err());
        }
        get_flag(&repo.store, self.entry_id, "enabled")
    }

    /// This entry's free-text notes.
    pub fn notes(&self, repo: &Repository) -> (r: Result<String, Error>)
        requires
            repo.wf(),
        ensures
            r matches Ok(t) ==> !repo.poisoned && self.entry_id.live(repo.st()) && repo.st().field(
                self.entry_id.addr as int,
                "notes"@,
            ) == Some(Val::Text(t@)),
            r matches Err(e) ==> e is RemovedEntity || e is Internal,
            r matches Err(e) && e is RemovedEntity ==> !self.entry_id.live(repo.st()),
    {
        if repo.poisoned {
            return Err(Repository::poisoned_err());
        }
        get_text(&repo.store, self.entry_id, "notes")
    }

    /// Enable or disable this entry.
    pub fn set_enabled(&self, repo: &mut Repository, value: bool) -> (r: Result<(), Error>)
        requires
            old(repo).wf(),
        ensures
            final(repo).wf(),
            final(repo).roots == old(repo).roots,
            final(repo).lib_dir == old(repo).lib_dir,
            final(repo).chains == old(repo).chains,
            final(repo).fs == old(repo).fs,
            final(repo).poisoned == old(repo).poisoned,
            r is Ok ==> {
                &&& !old(repo).poisoned
                &&& self.entry_id.live(old(repo).st())
                &&& final(repo).st().field(self.entry_id.addr as int, "enabled"@) == Some(
                    Val::U64(if value {
                        1u64
                    } else {
                        0u64
                    }),
                )
                &&& (forall|b: int, k: Seq<char>|
                    b != self.entry_id.addr as int ==> final(repo).st().field(b, k) == old(repo).st().field(b, k))
                &&& (forall|k: Seq<char>|
                    k != "enabled"@ ==> final(repo).st().field(self.entry_id.addr as int, k) == old(repo).st().field(self.entry_id.addr as int, k))
            },
            r matches Err(e) ==> e is RemovedEntity || e is Internal,
            r matches Err(e) && e is RemovedEntity ==> !self.entry_id.live(old(repo).st()),
    {
        if repo.poisoned {
            return Err(Repository::poisoned_err());
        }
        let ghost pre = *repo;
        let code: u64 = if value {
            1
        } else {
            0
        };
        match crate::ids::set_field(
            &mut repo.store,
            self.entry_id,
            "enabled",
            &FieldValue::U64(code),
        ) {
            Ok(()) => (),
            Err(e) => {
                proof {
                    crate::repo::lemma_wf_same_store_views(pre, *repo);
                }
                return Err(e);
            },
        }
        proof {
            lemma_field_keys();
            crate::repo::lemma_wf_entity_field(pre, *repo, self.entry_id.addr as int);
        }
        Ok(())
    }
}


impl Repository {
    /// Link one ready entry node (fielded, pointing at its mod, otherwise
    /// unlisted) after the tail of a profile's chain.
    #[verifier::spinoff_prover]
    fn append_ready_entry(&mut self, p: i64, tail: i64, addr: i64) -> (r: Result<(), Error>)
        requires
            old(self).wf_state(),
            !old(self).poisoned,
            old(self).chains@.dom().contains(p as int),
            tail as int == (if old(self).chains@[p as int].len() == 0 {
                p as int
            } else {
                old(self).chains@[p as int].last()
            }),
            old(self).entry_ok(addr as int),
            old(self).entry_neis(addr as int) == Seq::<int>::empty(),
            old(self).mod_neis(addr as int).len() <= 1,
            old(self).mod_neis(addr as int).len() == 1 ==> old(self).mod_ok(
                old(self).mod_neis(addr as int)[0],
            ),
            forall|q: int|
                #[trigger] old(self).chains@.dom().contains(q) ==> !old(self).chains@[q].contains(
                    addr as int,
                ),
            tail > 0,
            old(self).st().has_node(tail as int),
            addr > 0,
            old(self).st().has_node(addr as int),
        ensures
            final(self).wf_state(),
            final(self).roots == old(self).roots,
            final(self).lib_dir == old(self).lib_dir,
            final(self).fs == old(self).fs,
            final(self).poisoned == old(self).poisoned,
            r is Ok ==> {
                &&& final(self).chains@ == old(self).chains@.insert(
                    p as int,
                    old(self).chains@[p as int].push(addr as int),
                )
                &&& final(self).games_v() == old(self).games_v()
                &&& final(self).actives_v() == old(self).actives_v()
                &&& final(self).active_ps_v() == old(self).active_ps_v()
                &&& (forall|g2: int| final(self).profiles_v(g2) == old(self).profiles_v(g2))
                &&& (forall|g2: int| final(self).mods_v(g2) == old(self).mods_v(g2))
                &&& (forall|b: int, k: Seq<char>|
                    final(self).st().field(b, k) == old(self).st().field(b, k))
            },
            r is Err ==> *final(self) == *old(self),
            r matches Err(e) ==> e is Internal,
    {
        let ghost mid = *self;
        let eid2 = match self.store.new_edge(tail, addr) {
            Ok(e) => e,
            Err(f) => {
                return Err(Error::Internal(f.message));
            },
        };
        proof {
            self.chains@ = mid.chains@.insert(p as int, mid.chains@[p as int].push(addr as int));
            assert(mid.chains@[p as int].push(addr as int) =~= mid.chains@[p as int] + seq![
                addr as int,
            ]);
            crate::chainlem::lemma_wf_attach_segment(
                mid,
                *self,
                p as int,
                seq![addr as int],
                GEdge { eid: eid2 as int, src: tail as int, dst: addr as int },
            );
        }
        Ok(())
    }
}

impl Repository {
    /// Remove one chain entry node, truncating its profile's chain at that
    /// slot; the ensured facts let the caller re-attach the suffix.
    #[verifier::spinoff_prover]
    fn detach_entry(&mut self, p: i64, e_addr: i64, Ghost(c): Ghost<Seq<int>>, idx: usize) -> (r:
        Result<(), Error>)
        requires
            old(self).wf_state(),
            !old(self).poisoned,
            p > 0,
            e_addr > 0,
            old(self).chains@.dom().contains(p as int),
            c == old(self).chains@[p as int],
            0 <= idx < c.len(),
            c[idx as int] == e_addr as int,
        ensures
            final(self).roots == old(self).roots,
            final(self).lib_dir == old(self).lib_dir,
            final(self).fs == old(self).fs,
            final(self).poisoned == old(self).poisoned,
            r is Err ==> *final(self) == *old(self),
            r matches Err(e) ==> e is Internal,
            r is Ok ==> {
                &&& final(self).wf_state()
                &&& final(self).chains@ == old(self).chains@.insert(p as int, c.take(idx as int))
                &&& !final(self).st().has_node(e_addr as int)
                &&& final(self).games_v() == old(self).games_v()
                &&& final(self).tools_v() == old(self).tools_v()
                &&& final(self).actives_v() == old(self).actives_v()
                &&& final(self).active_ps_v() == old(self).active_ps_v()
                &&& (forall|g2: int|
                    g2 != e_addr as int ==> final(self).profiles_v(g2) == old(self).profiles_v(g2))
                &&& (idx as int > 0 ==> final(self).chains@[p as int].last() == c[idx as int - 1]
                    && final(self).st().has_node(c[idx as int - 1]))
                &&& final(self).st().has_node(p as int)
                &&& ({
                    let seg = c.skip(idx as int + 1);
                    idx as int + 1 < c.len() ==> {
                        &&& seg.len() > 0
                        &&& seg.no_duplicates()
                        &&& (forall|i: int| 0 <= i < seg.len() ==> final(self).entry_ok(#[trigger] seg[i]))
                        &&& (forall|i: int|
                            0 <= i < seg.len() - 1 ==> final(self).entry_neis(#[trigger] seg[i])
                                == seq![seg[i + 1]])
                        &&& final(self).entry_neis(seg[seg.len() - 1]) == Seq::<int>::empty()
                        &&& (forall|i: int|
                            0 <= i < seg.len() ==> (#[trigger] final(self).mod_neis(seg[i])).len()
                                <= 1 && (final(self).mod_neis(seg[i]).len() == 1 ==> final(self).mod_ok(final(self).mod_neis(seg[i])[0])))
                        &&& (forall|q: int, i: int|
                            #[trigger] final(self).chains@.dom().contains(q) && 0 <= i < seg.len()
                                ==> !final(self).chains@[q].contains(#[trigger] seg[i]))
                        &&& seg[0] == c[idx as int + 1]
                        &&& final(self).st().has_node(seg[0])
                    }
                })
            },
    {
        let ghost pre = *self;
        proof {
            assert(pre.chain_ok(p as int, c));
            assert(pre.entry_ok(c[idx as int]));
            crate::profile::lemma_entry_not_root_pub(pre, e_addr as int);
            assert(!pre.chains@.dom().contains(e_addr as int)) by {
                if pre.chains@.dom().contains(e_addr as int) {
                    assert(pre.is_profile(e_addr as int));
                    crate::profile::lemma_profile_not_root_pub2(pre, e_addr as int);
                }
            }
            assert(pre.st().has_node(e_addr as int));
        }
        match self.store.remove_element(e_addr) {
            Ok(_) => (),
            Err(f) => {
                proof {
                    crate::repo::lemma_wf_same_store_views(pre, *self);
                }
                return Err(Error::Internal(f.message));
            },
        }
        proof {
            self.chains@ = pre.chains@.insert(p as int, c.take(idx as int));
            crate::repo::lemma_wf_remove_node(
                pre,
                *self,
                e_addr as int,
                crate::repo::ChainsMode::Truncated(p as int, idx as int),
            );
            crate::profile::lemma_listing_drop_other_pub(pre, *self, e_addr as int, KIND_ENTRY);
            if idx as int + 1 < c.len() {
                assert forall|q: int, y: int|
                    #[trigger] pre.chains@.dom().contains(q) && q != p as int
                        && #[trigger] pre.chains@[q].contains(y) implies !c.contains(y) by {
                    if c.contains(y) {
                        assert(pre.chains@[p as int].contains(y));
                    }
                }
                lemma_suffix_ready(pre, *self, p as int, c, idx as int, e_addr as int);
                assert(self.st().has_node(c.skip(idx as int + 1)[0])) by {
                    assert(self.entry_ok(c.skip(idx as int + 1)[0]));
                }
            }
            if idx as int > 0 {
                assert(self.chains@[p as int] == c.take(idx as int));
                assert(self.st().has_node(c[idx as int - 1])) by {
                    assert(self.chains@.dom().contains(p as int));
                    assert(self.chain_ok(p as int, self.chains@[p as int]));
                    assert(c.take(idx as int)[idx as int - 1] == c[idx as int - 1]);
                    assert(self.entry_ok(c[idx as int - 1]));
                }
            }
            assert(self.st().has_node(p as int)) by {
                assert(self.is_profile(p as int)) by {
                    assert(self.chains@.dom().contains(p as int));
                }
                crate::profile::lemma_profile_not_root_pub2(*self, p as int);
                assert(self.profile_ok(p as int));
            }
        }
        Ok(())
    }

    /// Re-attach the detached suffix after the predecessor.
    #[verifier::spinoff_prover]
    fn reattach_suffix(
        &mut self,
        p: i64,
        prev: i64,
        nxt: i64,
        Ghost(cpre): Ghost<Seq<int>>,
        Ghost(seg): Ghost<Seq<int>>,
    ) -> (r: Result<(), Error>)
        requires
            old(self).wf_state(),
            !old(self).poisoned,
            p > 0,
            prev > 0,
            nxt > 0,
            old(self).chains@.dom().contains(p as int),
            cpre == old(self).chains@[p as int],
            prev as int == (if cpre.len() == 0 {
                p as int
            } else {
                cpre.last()
            }),
            seg.len() > 0,
            seg.no_duplicates(),
            nxt as int == seg[0],
            forall|i: int| 0 <= i < seg.len() ==> old(self).entry_ok(#[trigger] seg[i]),
            forall|i: int|
                0 <= i < seg.len() - 1 ==> old(self).entry_neis(#[trigger] seg[i]) == seq![
                    seg[i + 1],
                ],
            old(self).entry_neis(seg[seg.len() - 1]) == Seq::<int>::empty(),
            forall|i: int|
                0 <= i < seg.len() ==> (#[trigger] old(self).mod_neis(seg[i])).len() <= 1 && (old(self).mod_neis(seg[i]).len() == 1 ==> old(self).mod_ok(old(self).mod_neis(seg[i])[0])),
            forall|q: int, i: int|
                #[trigger] old(self).chains@.dom().contains(q) && 0 <= i < seg.len() ==> !old(self).chains@[q].contains(#[trigger] seg[i]),
            old(self).st().has_node(prev as int),
            old(self).st().has_node(nxt as int),
        ensures
            final(self).roots == old(self).roots,
            final(self).lib_dir == old(self).lib_dir,
            final(self).fs == old(self).fs,
            r matches Err(e) ==> e is Internal,
            r is Err ==> final(self).poisoned,
            final(self).wf(),
            r is Ok ==> {
                &&& !final(self).poisoned
                &&& final(self).wf_state()
                &&& final(self).chains@ == old(self).chains@.insert(p as int, cpre + seg)
                &&& final(self).st().nodes() == old(self).st().nodes()
                &&& final(self).games_v() == old(self).games_v()
                &&& final(self).actives_v() == old(self).actives_v()
                &&& final(self).active_ps_v() == old(self).active_ps_v()
                &&& (forall|g2: int| final(self).profiles_v(g2) == old(self).profiles_v(g2))
                &&& (forall|b: int, k: Seq<char>|
                    final(self).st().field(b, k) == old(self).st().field(b, k))
            },
    {
        let ghost tr = *self;
        match self.store.new_edge(prev, nxt) {
            Ok(eid) => {
                proof {
                    self.chains@ = tr.chains@.insert(p as int, cpre + seg);
                    crate::chainlem::lemma_wf_attach_segment(
                        tr,
                        *self,
                        p as int,
                        seg,
                        GEdge { eid: eid as int, src: prev as int, dst: nxt as int },
                    );
                }
                Ok(())
            },
            Err(f) => {
                // The chain is truncated and its suffix unreachable: the
                // repository refuses further work.
                self.poisoned = true;
                Err(Error::Internal(f.message))
            },
        }
    }

    /// Splice the entry at slot `idx` out of profile `p`'s chain: remove its
    /// node, then re-attach the suffix (when one exists) after `prev`.
    #[verifier::spinoff_prover]
    fn splice_at(
        &mut self,
        p: i64,
        prev: i64,
        e_addr: i64,
        nxt: i64,
        has_suffix: bool,
        Ghost(c): Ghost<Seq<int>>,
        idx: usize,
    ) -> (r: Result<(), Error>)
        requires
            old(self).wf_state(),
            !old(self).poisoned,
            p > 0,
            e_addr > 0,
            old(self).chains@.dom().contains(p as int),
            c == old(self).chains@[p as int],
            0 <= idx < c.len(),
            c[idx as int] == e_addr as int,
            idx as int == 0 ==> prev == p,
            idx as int > 0 ==> prev as int == c[idx as int - 1],
            has_suffix <==> idx as int + 1 < c.len(),
            has_suffix ==> nxt as int == c[idx as int + 1],
            prev > 0,
            nxt > 0,
        ensures
            final(self).wf(),
            final(self).roots == old(self).roots,
            final(self).lib_dir == old(self).lib_dir,
            final(self).fs == old(self).fs,
            r is Ok ==> !final(self).poisoned && !final(self).st().has_node(e_addr as int)
                && final(self).chains@ == old(self).chains@.insert(
                p as int,
                c.remove(idx as int),
            ),
            r matches Err(e) ==> e is Internal,
    {
        let ghost pre = *self;
        match self.detach_entry(p, e_addr, Ghost(c), idx) {
            Ok(()) => (),
            Err(e) => {
                return Err(e);
            },
        }
        if has_suffix {
            proof {
                assert(self.chains@[p as int] == c.take(idx as int));
                assert(c.take(idx as int).len() == idx as int);
                if idx > 0 {
                    assert(c.take(idx as int).last() == c[idx as int - 1]);
                }
                assert(prev as int == (if c.take(idx as int).len() == 0 {
                    p as int
                } else {
                    c.take(idx as int).last()
                }));
                assert(c.skip(idx as int + 1)[0] == c[idx as int + 1]);
                assert(self.st().has_node(prev as int)) by {
                    if idx == 0 {
                        assert(self.st().has_node(p as int));
                    }
                }
                assert(self.st().has_node(nxt as int));
            }
            match self.reattach_suffix(
                p,
                prev,
                nxt,
                Ghost(c.take(idx as int)),
                Ghost(c.skip(idx as int + 1)),
            ) {
                Ok(()) => (),
                Err(e) => {
                    return Err(e);
                },
            }
            proof {
                assert(c.take(idx as int) + c.skip(idx as int + 1) =~= c.remove(idx as int));
                assert(self.chains@ =~= pre.chains@.insert(p as int, c.remove(idx as int)));
            }
        } else {
            proof {
                assert(c.take(idx as int) =~= c.remove(idx as int));
                assert(self.chains@ =~= pre.chains@.insert(p as int, c.remove(idx as int)));
            }
        }
        Ok(())
    }
}

/// After truncating a chain at the removed slot, the unreachable suffix still
/// has exactly the shape required to be re-attached as a segment.
#[verifier::rlimit(60)]
#[verifier::spinoff_prover]
proof fn lemma_suffix_ready(pre: Repository, tr: Repository, p: int, c: Seq<int>, idx: int, x: int)
    requires
        pre.chain_ok(p, c),
        forall|q: int, y: int|
            #[trigger] pre.chains@.dom().contains(q) && q != p && #[trigger] pre.chains@[q].contains(
                y,
            ) ==> !c.contains(y),
        pre.chains@.dom().contains(p),
        c == pre.chains@[p],
        0 <= idx < c.len() - 1,
        x == c[idx],
        tr.chains@ == pre.chains@.insert(p, c.take(idx)),
        forall|a: int|
            a != x ==> #[trigger] tr.entry_neis(a) == pre.entry_neis(a).filter(
                crate::store::ne_addr(x),
            ),
        forall|a: int|
            a != x ==> #[trigger] tr.mod_neis(a) == pre.mod_neis(a).filter(
                crate::store::ne_addr(x),
            ),
        tr.st().nodes() == pre.st().nodes().remove(x),
    ensures
        ({
            let seg = c.skip(idx + 1);
            &&& seg.len() > 0
            &&& seg.no_duplicates()
            &&& (forall|i: int| 0 <= i < seg.len() ==> tr.entry_ok(#[trigger] seg[i]))
            &&& (forall|i: int|
                0 <= i < seg.len() - 1 ==> tr.entry_neis(#[trigger] seg[i]) == seq![seg[i + 1]])
            &&& tr.entry_neis(seg[seg.len() - 1]) == Seq::<int>::empty()
            &&& (forall|i: int|
                0 <= i < seg.len() ==> (#[trigger] tr.mod_neis(seg[i])).len() <= 1 && (tr.mod_neis(
                    seg[i],
                ).len() == 1 ==> tr.mod_ok(tr.mod_neis(seg[i])[0])))
            &&& (forall|q: int, i: int|
                #[trigger] tr.chains@.dom().contains(q) && 0 <= i < seg.len()
                    ==> !tr.chains@[q].contains(#[trigger] seg[i]))
            &&& (idx > 0 ==> tr.chains@[p].last() == c[idx - 1])
            &&& tr.chains@[p].len() == idx
            &&& seg[0] == c[idx + 1]
        }),
{
    let seg = c.skip(idx + 1);
    let ne = crate::store::ne_addr(x);
    assert(c.no_duplicates());
    assert forall|i: int| 0 <= i < seg.len() implies tr.entry_ok(#[trigger] seg[i]) && (
    tr.mod_neis(seg[i])).len() <= 1 && (tr.mod_neis(seg[i]).len() == 1 ==> tr.mod_ok(
        tr.mod_neis(seg[i])[0],
    )) by {
        assert(seg[i] == c[i + idx + 1]);
        assert(pre.entry_ok(seg[i]));
        assert(seg[i] != x);
        assert(tr.mod_neis(seg[i]) == pre.mod_neis(seg[i]).filter(ne));
        pre.mod_neis(seg[i]).lemma_filter_len(ne);
        if tr.mod_neis(seg[i]).len() == 1 {
            crate::model::lemma_filter_sub(pre.mod_neis(seg[i]), ne);
            let mm = tr.mod_neis(seg[i])[0];
            assert(pre.mod_neis(seg[i]).contains(mm));
            let kx = choose|kx: int|
                0 <= kx < pre.mod_neis(seg[i]).len() && pre.mod_neis(seg[i])[kx] == mm;
            assert(pre.mod_neis(seg[i]).len() == 1);
            assert(pre.mod_ok(pre.mod_neis(seg[i])[0]));
            assert(mm != x);
            assert(forall|k2: Seq<char>| tr.st().field(mm, k2) == pre.st().field(mm, k2));
        }
    }
    assert forall|i: int| 0 <= i < seg.len() - 1 implies tr.entry_neis(#[trigger] seg[i])
        == seq![seg[i + 1]] by {
        assert(seg[i] == c[i + idx + 1]);
        assert(seg[i + 1] == c[i + idx + 2]);
        assert(pre.entry_neis(seg[i]) == seq![seg[i + 1]]);
        assert(tr.entry_neis(seg[i]) == pre.entry_neis(seg[i]).filter(ne));
        assert(seg[i + 1] != x);
        assert forall|j: int| 0 <= j < pre.entry_neis(seg[i]).len() implies ne(
            #[trigger] pre.entry_neis(seg[i])[j],
        ) by {}
        crate::model::lemma_filter_all(pre.entry_neis(seg[i]), ne);
    }
    assert(tr.entry_neis(seg[seg.len() - 1]) =~= Seq::<int>::empty()) by {
        assert(seg[seg.len() - 1] == c[c.len() - 1]);
        assert(pre.entry_neis(c[c.len() - 1]) == Seq::<int>::empty());
        assert(seg[seg.len() - 1] != x);
        assert(tr.entry_neis(seg[seg.len() - 1]) == pre.entry_neis(c[c.len() - 1]).filter(ne));
        crate::model::lemma_filter_all(pre.entry_neis(c[c.len() - 1]), ne);
    }
    assert(seg.no_duplicates()) by {
        assert forall|a2: int, b2: int|
            0 <= a2 < seg.len() && 0 <= b2 < seg.len() && a2 != b2 implies seg[a2] != seg[b2] by {
            assert(seg[a2] == c[a2 + idx + 1]);
            assert(seg[b2] == c[b2 + idx + 1]);
        }
    }
    assert forall|q: int, i: int|
        #[trigger] tr.chains@.dom().contains(q) && 0 <= i < seg.len() implies !tr.chains@[q].contains(
        #[trigger] seg[i],
    ) by {
        assert(seg[i] == c[i + idx + 1]);
        if q == p {
            assert(tr.chains@[q] == c.take(idx));
            if tr.chains@[q].contains(seg[i]) {
                let jx = choose|jx: int| 0 <= jx < idx && c.take(idx)[jx] == seg[i];
                assert(c[jx] == c[i + idx + 1]);
            }
        } else {
            assert(tr.chains@[q] == pre.chains@[q]);
            if pre.chains@[q].contains(seg[i]) {
                assert(!c.contains(seg[i]));
                assert(c[i + idx + 1] == seg[i]);
                assert(false);
            }
        }
    }
    assert(tr.chains@[p] == c.take(idx));
    if idx > 0 {
        assert(c.take(idx).last() == c[idx - 1]);
    }
}


impl Repository {
    /// Create a fresh entry node carrying the entry fields but no edges.
    #[verifier::rlimit(30)]
    #[verifier::spinoff_prover]
    fn create_blank_entry(&mut self) -> (r: Result<(i64, u64), Error>)
        requires
            old(self).wf_state(),
            !old(self).poisoned,
        ensures
            final(self).wf_state(),
            final(self).roots == old(self).roots,
            final(self).lib_dir == old(self).lib_dir,
            final(self).fs == old(self).fs,
            final(self).poisoned == old(self).poisoned,
            final(self).chains == old(self).chains,
            final(self).games_v() == old(self).games_v(),
            final(self).actives_v() == old(self).actives_v(),
            final(self).active_ps_v() == old(self).active_ps_v(),
            forall|g2: int| final(self).profiles_v(g2) == old(self).profiles_v(g2),
            final(self).st().edges() == old(self).st().edges(),
            r matches Ok(t) ==> {
                &&& t.0 > 0
                &&& !old(self).st().has_node(t.0 as int)
                &&& final(self).st().has_node(t.0 as int)
                &&& final(self).st().field(t.0 as int, "kind"@) == Some(Val::U64(KIND_ENTRY))
                &&& final(self).st().field(t.0 as int, "uid"@) == Some(Val::U64(t.1))
                &&& final(self).st().field(t.0 as int, "enabled"@) == Some(Val::U64(1))
                &&& final(self).st().field(t.0 as int, "notes"@) == Some(
                    Val::Text(Seq::<char>::empty()),
                )
                &&& (forall|i: int|
                    0 <= i < final(self).st().edges().len() ==> (#[trigger] final(self).st().edges()[i]).dst != t.0 as int && final(self).st().edges()[i].src
                        != t.0 as int)
                &&& (forall|b: int, k: Seq<char>|
                    b != t.0 as int && b != old(self).roots.counter as int ==> final(self).st().field(b, k) == old(self).st().field(b, k))
                &&& (forall|b: int|
                    b != t.0 as int ==> (final(self).st().has_node(b) <==> old(self).st().has_node(
                        b,
                    )))
            },
            r matches Err(e) ==> e is Internal,
    {
        let created = match self.create_entity(KIND_ENTRY) {
            Ok(t) => t,
            Err(e) => {
                return Err(e);
            },
        };
        let addr = created.0;
        let uid = created.1;
        proof {
            lemma_field_keys();
        }
        self.set_unlinked_field(addr, "enabled", &FieldValue::U64(1))?;
        self.set_unlinked_field(addr, "notes", &FieldValue::Text(String::new()))?;
        Ok((addr, uid))
    }

    /// Point a blank, unlisted entry node at its mod; the entry then has
    /// exactly the shape of a one-element chain segment.
    #[verifier::rlimit(30)]
    #[verifier::spinoff_prover]
    fn point_entry_at_mod(&mut self, addr: i64, uid: u64, m: i64) -> (r: Result<(), Error>)
        requires
            old(self).wf_state(),
            !old(self).poisoned,
            addr > 0,
            old(self).st().has_node(addr as int),
            old(self).st().field(addr as int, "kind"@) == Some(Val::U64(KIND_ENTRY)),
            old(self).st().field(addr as int, "uid"@) == Some(Val::U64(uid)),
            old(self).st().field(addr as int, "enabled"@) == Some(Val::U64(1)),
            old(self).st().field(addr as int, "notes"@) matches Some(v) && v is Text,
            forall|i: int|
                0 <= i < old(self).st().edges().len() ==> (#[trigger] old(self).st().edges()[i]).dst != addr as int && old(self).st().edges()[i].src
                    != addr as int,
            m > 0,
            old(self).st().has_node(m as int),
            old(self).st().field(m as int, "kind"@) == Some(Val::U64(KIND_MOD)),
            old(self).st().field(m as int, "uid"@) matches Some(v) && v is U64,
            old(self).st().field(m as int, "name"@) matches Some(v) && v is Text,
        ensures
            final(self).wf_state(),
            final(self).roots == old(self).roots,
            final(self).lib_dir == old(self).lib_dir,
            final(self).fs == old(self).fs,
            final(self).poisoned == old(self).poisoned,
            final(self).chains == old(self).chains,
            final(self).games_v() == old(self).games_v(),
            final(self).actives_v() == old(self).actives_v(),
            final(self).active_ps_v() == old(self).active_ps_v(),
            forall|g2: int|
                g2 != addr as int ==> final(self).profiles_v(g2) == old(self).profiles_v(g2),
            forall|b: int, k: Seq<char>| final(self).st().field(b, k) == old(self).st().field(b, k),
            forall|b: int| final(self).st().has_node(b) <==> old(self).st().has_node(b),
            r is Ok ==> {
                &&& final(self).entry_ok(addr as int)
                &&& final(self).entry_neis(addr as int) == Seq::<int>::empty()
                &&& final(self).mod_neis(addr as int) == seq![m as int]
                &&& final(self).mod_ok(m as int)
            },
            r matches Err(e) ==> e is Internal,
    {
        let ghost base = *self;
        let eid1 = match self.store.new_edge(addr, m) {
            Ok(e) => e,
            Err(f) => {
                return Err(Error::Internal(f.message));
            },
        };
        proof {
            crate::chainlem::lemma_point_entry(
                base,
                *self,
                addr as int,
                uid,
                m as int,
                eid1 as int,
            );
        }
        Ok(())
    }
}


impl Repository {
    /// Confirm that the node reads as a mod: kind, uid and name in shape.

    #[verifier::spinoff_prover]
       fn confirm_mod(&self, m: i64) -> (r: Result<(), Error>)
        requires
            self.st().ok(),
            m > 0,
            self.st().has_node(m as int),
        ensures
            r is Ok ==> self.st().field(m as int, "kind"@) == Some(Val::U64(KIND_MOD)) && (
            self.st().field(m as int, "uid"@) matches Some(v) && v is U64) && (self.st().field(
                m as int,
                "name"@,
            ) matches Some(v) && v is Text),
            r matches Err(e) ==> e is Internal,
    {
        match self.store.get_value(m, "kind") {
            GetValue::Found(FieldValue::U64(code)) => {
                if code != KIND_MOD {
                    return Err(Error::Internal("handle does not refer to a mod".to_owned()));
                }
            },
            GetValue::Found(_) => {
                return Err(Error::Internal("entity kind holds a non-integer".to_owned()));
            },
            GetValue::Missing => {
                return Err(Error::Internal("entity kind is missing".to_owned()));
            },
            GetValue::Fault(msg) => {
                return Err(Error::Internal(msg));
            },
        }
        match self.store.get_value(m, "uid") {
            GetValue::Found(FieldValue::U64(_)) => (),
            GetValue::Found(_) => {
                return Err(Error::Internal("entity uid holds a non-integer".to_owned()));
            },
            GetValue::Missing => {
                return Err(Error::Internal("entity uid is missing".to_owned()));
            },
            GetValue::Fault(msg) => {
                return Err(Error::Internal(msg));
            },
        }
        match self.store.get_value(m, "name") {
            GetValue::Found(FieldValue::Text(_)) => Ok(()),
            GetValue::Found(_) => Err(Error::Internal("entity name holds a non-text value".to_owned())),
            GetValue::Missing => Err(Error::Internal("entity name is missing".to_owned())),
            GetValue::Fault(msg) => Err(Error::Internal(msg)),
        }
    }
}

/// A node that did not exist in a well-formed state sits in none of its
/// chains.

#[verifier::spinoff_prover]
proof fn lemma_fresh_unchained(r0: Repository, addr: int)
    requires
        r0.wf_state(),
        !r0.st().has_node(addr),
    ensures
        forall|q: int| #[trigger] r0.chains@.dom().contains(q) ==> !r0.chains@[q].contains(addr),
{
    assert forall|q: int| #[trigger] r0.chains@.dom().contains(q) implies !r0.chains@[q].contains(
        addr,
    ) by {
        if r0.chains@[q].contains(addr) {
            assert(r0.chain_ok(q, r0.chains@[q]));
            let jx = choose|jx: int|
                0 <= jx < r0.chains@[q].len() && r0.chains@[q][jx] == addr;
            assert(r0.entry_ok(addr));
        }
    }
}

/// A freshly fielded entry that just received its single edge to a mod has
/// exactly the shape the chain invariant asks of a segment of one.

#[verifier::spinoff_prover]
pub(crate) proof fn lemma_new_entry_shape(base: Repository, mid: Repository, addr: int, m: int, uid: u64)
    requires
        base.st().ok(),
        forall|i: int|
            0 <= i < base.st().edges().len() ==> (#[trigger] base.st().edges()[i]).dst != addr
                && base.st().edges()[i].src != addr,
        mid.st().nodes() == base.st().nodes(),
        exists|eid: int|
            mid.st().edges() == base.st().edges().push(
                GEdge { eid: eid, src: addr, dst: m },
            ),
        mid.st().field(addr, "kind"@) == Some(Val::U64(KIND_ENTRY)),
        mid.st().field(addr, "uid"@) == Some(Val::U64(uid)),
        mid.st().field(addr, "enabled"@) == Some(Val::U64(1)),
        mid.st().field(addr, "notes"@) matches Some(v) && v is Text,
        mid.st().field(m, "kind"@) == Some(Val::U64(KIND_MOD)),
        mid.st().field(m, "uid"@) matches Some(v) && v is U64,
        mid.st().field(m, "name"@) matches Some(v) && v is Text,
        addr > 0,
        m > 0,
    ensures
        mid.entry_ok(addr),
        mid.entry_neis(addr) == Seq::<int>::empty(),
        mid.mod_neis(addr) == seq![m],
        mid.mod_ok(m),
{
    let eid = choose|eid: int|
        mid.st().edges() == base.st().edges().push(GEdge { eid: eid, src: addr, dst: m });
    let e = GEdge { eid: eid, src: addr, dst: m };
    crate::model::lemma_push_edge(base.st(), mid.st(), e);
    assert(base.st().neis(addr) =~= Seq::<int>::empty()) by {
        crate::model::lemma_filter_all(base.st().edges(), crate::store::src_is(addr));
        assert(base.st().out_src(addr) =~= Seq::<GEdge>::empty());
        assert(base.st().out_src(addr).reverse() =~= Seq::<GEdge>::empty());
    }
    assert(mid.st().neis(addr) == seq![m] + base.st().neis(addr));
    assert(mid.st().neis(addr) =~= seq![m]);
    assert(!kind_pred(mid.st(), KIND_ENTRY)(m));
    assert(kind_pred(mid.st(), KIND_MOD)(m));
    crate::game::seq_prepend_filter(m, Seq::<int>::empty(), kind_pred(mid.st(), KIND_ENTRY));
    crate::game::seq_prepend_filter(m, Seq::<int>::empty(), kind_pred(mid.st(), KIND_MOD));
    assert(Seq::<int>::empty().filter(kind_pred(mid.st(), KIND_ENTRY)) =~= Seq::<int>::empty());
    assert(Seq::<int>::empty().filter(kind_pred(mid.st(), KIND_MOD)) =~= Seq::<int>::empty());
    assert(mid.entry_neis(addr) == (seq![m] + Seq::<int>::empty()).filter(
        kind_pred(mid.st(), KIND_ENTRY),
    ));
    assert(mid.entry_neis(addr) =~= Seq::<int>::empty());
    assert(mid.mod_neis(addr) == (seq![m] + Seq::<int>::empty()).filter(
        kind_pred(mid.st(), KIND_MOD),
    ));
    assert(mid.mod_neis(addr) =~= seq![m]);
}

impl Repository {
    /// Confirm that `p` is a listed profile of a listed game; hand back the
    /// owning game's address.
    pub(crate) fn confirm_profile(&self, p: i64) -> (r: Result<i64, Error>)
        requires
            self.wf_state(),
            p > 0,
            self.st().has_node(p as int),
        ensures
            r matches Ok(g) ==> self.is_profile(p as int) && self.games_v().contains(g as int)
                && self.profiles_v(g as int).contains(p as int) && g > 0,
            r matches Err(e) ==> e is RemovedEntity || e is Internal,
            r matches Err(e) && e is RemovedEntity ==> !self.is_profile(p as int),
    {
        let g = match self.parent_game_addr(p) {
            Ok(g) => g,
            Err(e) => {
                proof {
                    if self.is_profile(p as int) {
                        crate::profile::lemma_owner_is_parent_pub(*self, p as int);
                    }
                }
                return Err(e);
            },
        };
        let listed = self.out_neighbors(self.roots.games)?;
        let mut li: usize = 0;
        let mut found: bool = false;
        while li < listed.len()
            invariant
                self.wf_state(),
                listed@.map_values(crate::store::addr_int()) == self.games_v(),
                li <= listed@.len(),
                found ==> self.games_v().contains(g as int),
                !found ==> forall|j: int| 0 <= j < li as int ==> self.games_v()[j] != g as int,
            decreases listed@.len() - li,
        {
            if listed[li] == g {
                proof {
                    assert(listed@.map_values(crate::store::addr_int())[li as int] == g as int);
                }
                found = true;
            }
            li = li + 1;
        }
        if !found {
            proof {
                if self.is_profile(p as int) {
                    crate::profile::lemma_owner_is_parent_pub(*self, p as int);
                }
            }
            return Err(Error::RemovedEntity);
        }
        let sibs = self.neighbors_with_kind(g, KIND_PROFILE)?;
        let mut si: usize = 0;
        let mut member: bool = false;
        while si < sibs.len()
            invariant
                self.wf_state(),
                sibs@.map_values(crate::store::addr_int()) == self.profiles_v(g as int),
                si <= sibs@.len(),
                member ==> self.profiles_v(g as int).contains(p as int),
                !member ==> forall|j: int|
                    0 <= j < si as int ==> self.profiles_v(g as int)[j] != p as int,
            decreases sibs@.len() - si,
        {
            if sibs[si] == p {
                proof {
                    assert(sibs@.map_values(crate::store::addr_int())[si as int] == p as int);
                }
                member = true;
            }
            si = si + 1;
        }
        if !member {
            proof {
                if self.is_profile(p as int) {
                    crate::profile::lemma_owner_is_parent_pub(*self, p as int);
                }
            }
            return Err(Error::RemovedEntity);
        }
        proof {
            let gidx = choose|gidx: int|
                0 <= gidx < self.games_v().len() && self.games_v()[gidx] == g as int;
            assert(self.profiles_v(self.games_v()[gidx]).contains(p as int));
        }
        Ok(g)
    }
}

impl Profile {
    /// Append a new entry for `mod_` at the end of this profile's load list.
    #[verifier::rlimit(60)]
    #[verifier::spinoff_prover]
    pub fn add_mod_entry(&self, repo: &mut Repository, mod_: Mod) -> (r: Result<ModEntry, Error>)
        requires
            old(repo).wf(),
        ensures
            final(repo).wf(),
            final(repo).roots == old(repo).roots,
            final(repo).lib_dir == old(repo).lib_dir,
            r matches Ok(entry) ==> {
                &&& !old(repo).poisoned && !final(repo).poisoned
                &&& self.id.live(old(repo).st())
                &&& mod_.id.live(old(repo).st())
                &&& old(repo).is_profile(self.id.addr as int)
                &&& entry.entry_id.live(final(repo).st())
                &&& !old(repo).st().has_node(entry.entry_id.addr as int)
                &&& final(repo).chains@ == old(repo).chains@.insert(
                    self.id.addr as int,
                    old(repo).chains@[self.id.addr as int].push(entry.entry_id.addr as int),
                )
                &&& entry.mod_id == Some(mod_.id)
                &&& final(repo).games_v() == old(repo).games_v()
                &&& final(repo).actives_v() == old(repo).actives_v()
                &&& final(repo).active_ps_v() == old(repo).active_ps_v()
                &&& (forall|g2: int|
                    g2 != entry.entry_id.addr as int ==> final(repo).profiles_v(g2) == old(repo).profiles_v(g2))
                &&& (forall|b: int, k: Seq<char>|
                    b != entry.entry_id.addr as int && b != old(repo).roots.counter as int
                        ==> final(repo).st().field(b, k) == old(repo).st().field(b, k))
                &&& final(repo).st().field(entry.entry_id.addr as int, "enabled"@) == Some(
                    Val::U64(1),
                )
                &&& final(repo).st().field(entry.entry_id.addr as int, "notes"@) == Some(
                    Val::Text(Seq::<char>::empty()),
                )
                &&& final(repo).mod_neis(entry.entry_id.addr as int) == seq![
                    mod_.id.addr as int,
                ]
            },
            r matches Err(e) ==> e is RemovedEntity || e is Internal,
            r matches Err(e) && e is RemovedEntity ==> (!self.id.live(old(repo).st()) || !old(repo).is_profile(self.id.addr as int) || !mod_.id.live(old(repo).st())) && *final(repo)
                == *old(repo),
    {
        if repo.poisoned {
            return Err(Repository::poisoned_err());
        }
        let p = self.id.resolve(&repo.store)?;
        let _g = repo.confirm_profile(p)?;
        let m = mod_.id.resolve(&repo.store)?;
        // The referenced mod must read as a mod for the chain to stay sound.
        match repo.confirm_mod(m) {
            Ok(()) => (),
            Err(e) => {
                return Err(e);
            },
        }
        let entries = repo.chain_addrs(p)?;
        let tail: i64 = if entries.len() == 0 {
            p
        } else {
            entries[entries.len() - 1]
        };
        let ghost c = repo.chains@[p as int];
        proof {
            if entries@.len() > 0 {
                assert(entries@.map_values(crate::store::addr_int())[entries@.len() - 1]
                    == tail as int);
                assert(tail as int == c.last());
            }
        }
        let created = match repo.create_blank_entry() {
            Ok(t) => t,
            Err(e) => {
                return Err(e);
            },
        };
        let addr = created.0;
        let uid = created.1;
        match repo.point_entry_at_mod(addr, uid, m) {
            Ok(()) => (),
            Err(e) => {
                return Err(e);
            },
        }
        let ghost pointed = *repo;
        proof {
            assert(repo.chains@[p as int] == c);
            lemma_fresh_unchained(*old(repo), addr as int);
            assert(repo.chains@ == old(repo).chains@);
        }
        match repo.append_ready_entry(p, tail, addr) {
            Ok(()) => (),
            Err(e) => {
                return Err(e);
            },
        }
        proof {
            assert(repo.mods_v(addr as int) == pointed.mods_v(addr as int));
            assert(pointed.mods_v(addr as int) == pointed.mod_neis(addr as int));
            assert(repo.mod_neis(addr as int) == repo.mods_v(addr as int));
        }
        Ok(ModEntry { entry_id: EntityId { addr, uid }, mod_id: Some(mod_.id) })
    }

    /// The profile's entries in load order, each paired with its referenced
    /// mod where one is still linked.

    #[verifier::spinoff_prover]
       pub fn mod_entries(&self, repo: &Repository) -> (r: Result<Vec<ModEntry>, Error>)
        requires
            repo.wf(),
        ensures
            r matches Ok(v) ==> {
                &&& !repo.poisoned
                &&& self.id.live(repo.st())
                &&& repo.is_profile(self.id.addr as int)
                &&& v@.len() == repo.chains@[self.id.addr as int].len()
                &&& (forall|i: int|
                    0 <= i < v@.len() ==> (#[trigger] v@[i]).entry_id.addr as int
                        == repo.chains@[self.id.addr as int][i] && v@[i].entry_id.live(repo.st()))
                &&& (forall|i: int|
                    0 <= i < v@.len() ==> ((#[trigger] v@[i]).mod_id matches Some(m)
                        ==> repo.mod_neis(repo.chains@[self.id.addr as int][i]) == seq![
                        m.addr as int,
                    ] && m.live(repo.st())) && (v@[i].mod_id is None ==> repo.mod_neis(
                        repo.chains@[self.id.addr as int][i],
                    ).len() == 0))
            },
            r matches Err(e) ==> e is RemovedEntity || e is Internal,
            r matches Err(e) && e is RemovedEntity ==> !self.id.live(repo.st()) || !repo.is_profile(
                self.id.addr as int,
            ),
    {
        if repo.poisoned {
            return Err(Repository::poisoned_err());
        }
        let p = self.id.resolve(&repo.store)?;
        let _g = repo.confirm_profile(p)?;
        let entries = repo.chain_addrs(p)?;
        let ghost c = repo.chains@[p as int];
        let mut out: Vec<ModEntry> = Vec::new();
        let mut i: usize = 0;
        while i < entries.len()
            invariant
                repo.wf_state(),
                !repo.poisoned,
                entries@.map_values(crate::store::addr_int()) == c,
                forall|j: int|
                    0 <= j < entries@.len() ==> #[trigger] entries@[j] > 0 && repo.st().has_node(
                        entries@[j] as int,
                    ),
                i <= entries@.len(),
                out@.len() == i as int,
                forall|j: int|
                    0 <= j < i as int ==> (#[trigger] out@[j]).entry_id.addr as int == c[j]
                        && out@[j].entry_id.live(repo.st()),
                c == repo.chains@[p as int],
                p == self.id.addr,
                repo.chains@.dom().contains(p as int),
                forall|j: int|
                    0 <= j < i as int ==> ((#[trigger] out@[j]).mod_id matches Some(m)
                        ==> repo.mod_neis(c[j]) == seq![m.addr as int] && m.live(repo.st())) && (
                    out@[j].mod_id is None ==> repo.mod_neis(c[j]).len() == 0),
            decreases entries@.len() - i,
        {
            let a = entries[i];
            proof {
                assert(entries@.map_values(crate::store::addr_int())[i as int] == a as int);
                assert(repo.chain_ok(p as int, c));
                assert(repo.mod_neis(c[i as int]).len() <= 1);
            }
            let uid = match repo.store.get_value(a, "uid") {
                GetValue::Found(FieldValue::U64(u)) => u,
                GetValue::Found(_) => {
                    return Err(Error::Internal("entity uid holds a non-integer".to_owned()));
                },
                GetValue::Missing => {
                    return Err(Error::Internal("entity uid is missing".to_owned()));
                },
                GetValue::Fault(msg) => {
                    return Err(Error::Internal(msg));
                },
            };
            let mods = repo.neighbors_with_kind(a, KIND_MOD)?;
            proof {
                assert(mods@.map_values(crate::store::addr_int()) == repo.mod_neis(a as int));
                assert(mods@.len() == repo.mod_neis(a as int).len());
            }
            let mod_id: Option<EntityId> = if mods.len() > 0 {
                let ma = mods[0];
                proof {
                    assert(mods@.map_values(crate::store::addr_int())[0] == ma as int);
                    assert(repo.mod_neis(a as int) =~= seq![ma as int]);
                }
                match repo.store.get_value(ma, "uid") {
                    GetValue::Found(FieldValue::U64(mu)) => Some(EntityId { addr: ma, uid: mu }),
                    GetValue::Found(_) => {
                        return Err(Error::Internal("entity uid holds a non-integer".to_owned()));
                    },
                    GetValue::Missing => {
                        return Err(Error::Internal("entity uid is missing".to_owned()));
                    },
                    GetValue::Fault(msg) => {
                        return Err(Error::Internal(msg));
                    },
                }
            } else {
                None
            };
            out.push(ModEntry { entry_id: EntityId { addr: a, uid }, mod_id });
            i = i + 1;
        }
        Ok(out)
    }

    /// Remove one entry from this profile's load list, splicing the chain so
    /// that the remaining entries keep their relative order.
    #[verifier::rlimit(20)]
    #[verifier::spinoff_prover]
    pub fn remove_mod_entry(&self, repo: &mut Repository, entry: ModEntry) -> (r: Result<
        (),
        Error,
    >)
        requires
            old(repo).wf(),
        ensures
            final(repo).wf(),
            final(repo).roots == old(repo).roots,
            final(repo).lib_dir == old(repo).lib_dir,
            r is Ok ==> {
                &&& !old(repo).poisoned
                &&& self.id.live(old(repo).st())
                &&& old(repo).is_profile(self.id.addr as int)
                &&& old(repo).chains@[self.id.addr as int].contains(entry.entry_id.addr as int)
                &&& !final(repo).st().has_node(entry.entry_id.addr as int)
                &&& (exists|i: int|
                    0 <= i < old(repo).chains@[self.id.addr as int].len() && old(repo).chains@[self.id.addr as int][i] == entry.entry_id.addr as int && final(repo).chains@
                        == old(repo).chains@.insert(
                        self.id.addr as int,
                        #[trigger] old(repo).chains@[self.id.addr as int].remove(i),
                    ))
            },
            r matches Err(e) ==> e is RemovedEntity || e is Internal,
            r matches Err(e) && e is RemovedEntity ==> (!self.id.live(old(repo).st()) || !old(repo).is_profile(self.id.addr as int) || !old(repo).chains@[self.id.addr as int].contains(
                entry.entry_id.addr as int,
            ) || !entry.entry_id.live(old(repo).st())) && *final(repo) == *old(repo),
    {
        if repo.poisoned {
            return Err(Repository::poisoned_err());
        }
        let p = self.id.resolve(&repo.store)?;
        let _g = repo.confirm_profile(p)?;
        let e_addr = entry.entry_id.resolve(&repo.store)?;
        let entries = repo.chain_addrs(p)?;
        let ghost c = repo.chains@[p as int];
        let mut idx: usize = 0;
        while idx < entries.len() && entries[idx] != e_addr
            invariant
                *repo == *old(repo),
                repo.wf_state(),
                !repo.poisoned,
                entries@.map_values(crate::store::addr_int()) == c,
                c == repo.chains@[p as int],
                p == self.id.addr,
                e_addr == entry.entry_id.addr,
                idx <= entries@.len(),
                forall|j: int| 0 <= j < idx as int ==> c[j] != e_addr as int,
            decreases entries@.len() - idx,
        {
            proof {
                assert(c[idx as int] == entries@[idx as int] as int);
            }
            idx = idx + 1;
        }
        if idx == entries.len() {
            proof {
                assert(c.len() == entries@.len()) by {
                    assert(entries@.map_values(crate::store::addr_int()).len() == entries@.len());
                }
                assert(!c.contains(e_addr as int)) by {
                    if c.contains(e_addr as int) {
                        let j = choose|j: int| 0 <= j < c.len() && c[j] == e_addr as int;
                        assert(c[j] != e_addr as int);
                    }
                }
            }
            return Err(Error::RemovedEntity);
        }
        proof {
            assert(c[idx as int] == entries@[idx as int] as int);
            assert(c[idx as int] == e_addr as int);
            assert(c.contains(e_addr as int));
            assert(repo.chains@.dom().contains(p as int));
            assert(c.len() == entries@.len()) by {
                assert(entries@.map_values(crate::store::addr_int()).len() == entries@.len());
            }
        }
        let prev: i64 = if idx == 0 {
            p
        } else {
            entries[idx - 1]
        };
        let has_suffix = idx + 1 < entries.len();
        let nxt: i64 = if has_suffix {
            entries[idx + 1]
        } else {
            p
        };
        proof {
            if idx > 0 {
                assert(prev as int == c[idx as int - 1]) by {
                    assert(c[idx as int - 1] == entries@[idx as int - 1] as int);
                }
            }
            if has_suffix {
                assert(nxt as int == c[idx as int + 1]) by {
                    assert(c[idx as int + 1] == entries@[idx as int + 1] as int);
                }
            }
        }
        match repo.splice_at(p, prev, e_addr, nxt, has_suffix, Ghost(c), idx) {
            Ok(()) => Ok(()),
            Err(e) => Err(e),
        }
    }
}

} // verus!