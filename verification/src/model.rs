//! Lemmas about how the store views respond to single mutations.
//!
//! Every mutation of the store is one of: pushing an edge, removing a node
//! (with every edge touching it), removing an edge, or inserting one field of
//! one node. The lemmas here say how neighbour listings change under each,
//! so that the operation proofs only reason at the level of listings.
use vstd::prelude::*;

use crate::store::{
    dst_is, edge_dst, edge_src, ne_addr, not_eid, src_is, untouched_by, GEdge, Store,
};

verus! {

/// Filtering a pushed sequence: the new element lands at the end when it
/// satisfies the predicate and disappears otherwise.
pub proof fn lemma_filter_push<A>(s: Seq<A>, pred: spec_fn(A) -> bool, x: A)
    ensures
        pred(x) ==> s.push(x).filter(pred) == s.filter(pred).push(x),
        !pred(x) ==> s.push(x).filter(pred) == s.filter(pred),
{
    reveal(Seq::filter);
    assert(s.push(x).drop_last() =~= s);
    assert(s.push(x).last() == x);
}

/// Two predicates that agree on every element of a sequence filter it to the
/// same result.
pub proof fn lemma_filter_congruence<A>(s: Seq<A>, p: spec_fn(A) -> bool, q: spec_fn(A) -> bool)
    requires
        forall|i: int| 0 <= i < s.len() ==> (p(#[trigger] s[i]) <==> q(s[i])),
    ensures
        s.filter(p) == s.filter(q),
    decreases s.len(),
{
    reveal(Seq::filter);
    if s.len() != 0 {
        let rest = s.drop_last();
        assert(forall|i: int| 0 <= i < rest.len() ==> rest[i] == s[i]);
        lemma_filter_congruence(rest, p, q);
        assert(s.last() == s[s.len() - 1]);
    }
}

/// Filtering commutes with reversal.
pub proof fn lemma_filter_reverse<A>(s: Seq<A>, p: spec_fn(A) -> bool)
    ensures
        s.reverse().filter(p) == s.filter(p).reverse(),
    decreases s.len(),
{
    reveal(Seq::filter);
    if s.len() == 0 {
        assert(s.reverse().filter(p) =~= s.filter(p).reverse());
    } else {
        let rest = s.drop_last();
        lemma_filter_reverse(rest, p);
        lemma_filter_push(rest, p, s.last());
        assert(rest.push(s.last()) =~= s);
        assert(s.reverse() =~= seq![s.last()] + rest.reverse());
        assert((seq![s.last()] + rest.reverse()).filter(p) == seq![s.last()].filter(p)
            + rest.reverse().filter(p)) by {
            Seq::filter_distributes_over_add(seq![s.last()], rest.reverse(), p);
        }
        lemma_filter_push(Seq::<A>::empty(), p, s.last());
        assert(Seq::<A>::empty().push(s.last()) =~= seq![s.last()]);
        if p(s.last()) {
            assert(seq![s.last()].filter(p) =~= seq![s.last()]);
            assert(s.filter(p).reverse() =~= seq![s.last()] + rest.filter(p).reverse());
        } else {
            assert(seq![s.last()].filter(p) =~= Seq::<A>::empty());
            assert(s.filter(p).reverse() =~= rest.filter(p).reverse());
            assert(seq![s.last()].filter(p) + rest.reverse().filter(p) =~= rest.reverse().filter(
                p,
            ));
        }
    }
}

/// Mapping after filtering on a property of the mapped value is filtering
/// after mapping.
pub proof fn lemma_map_filter<A, B>(s: Seq<A>, f: spec_fn(A) -> B, q: spec_fn(B) -> bool)
    ensures
        s.filter(|x: A| q(f(x))).map_values(f) == s.map_values(f).filter(q),
    decreases s.len(),
{
    reveal(Seq::filter);
    if s.len() == 0 {
        assert(s.filter(|x: A| q(f(x))).map_values(f) =~= s.map_values(f).filter(q));
    } else {
        let rest = s.drop_last();
        lemma_map_filter(rest, f, q);
        lemma_filter_push(rest, |x: A| q(f(x)), s.last());
        assert(rest.push(s.last()) =~= s);
        assert(s.map_values(f) =~= rest.map_values(f).push(f(s.last())));
        lemma_filter_push(rest.map_values(f), q, f(s.last()));
        if q(f(s.last())) {
            assert(rest.filter(|x: A| q(f(x))).push(s.last()).map_values(f) =~= rest.filter(
                |x: A| q(f(x)),
            ).map_values(f).push(f(s.last())));
        }
    }
}

/// Reversing a pushed sequence prepends the new element.
pub proof fn lemma_reverse_push<A>(s: Seq<A>, x: A)
    ensures
        s.push(x).reverse() == seq![x] + s.reverse(),
{
    assert(s.push(x).reverse() =~= seq![x] + s.reverse());
}

/// A sequence in which every element satisfies the predicate is unchanged by
/// filtering with it; one in which none does filters to empty.
pub proof fn lemma_filter_all<A>(s: Seq<A>, p: spec_fn(A) -> bool)
    ensures
        (forall|i: int| 0 <= i < s.len() ==> p(#[trigger] s[i])) ==> s.filter(p) == s,
        (forall|i: int| 0 <= i < s.len() ==> !p(#[trigger] s[i])) ==> s.filter(p) == Seq::<
            A,
        >::empty(),
    decreases s.len(),
{
    reveal(Seq::filter);
    if s.len() == 0 {
        assert(s.filter(p) =~= s);
    } else {
        let rest = s.drop_last();
        lemma_filter_all(rest, p);
        lemma_filter_push(rest, p, s.last());
        assert(rest.push(s.last()) =~= s);
        assert(forall|i: int| 0 <= i < rest.len() ==> rest[i] == s[i]);
    }
}

/// Pushing one edge: only the endpoints' listings change, by prepending.

#[verifier::spinoff_prover]
pub proof fn lemma_push_edge(s1: Store, s2: Store, e: GEdge)
    requires
        s2.edges() == s1.edges().push(e),
    ensures
        s2.neis(e.src) == seq![e.dst] + s1.neis(e.src),
        s2.in_neis(e.dst) == seq![e.src] + s1.in_neis(e.dst),
        forall|a: int| a != e.src ==> s2.neis(a) == s1.neis(a),
        forall|a: int| a != e.dst ==> s2.in_neis(a) == s1.in_neis(a),
{
    assert forall|a: int| true implies {
        &&& a == e.src ==> s2.neis(a) == seq![e.dst] + s1.neis(a)
        &&& a != e.src ==> s2.neis(a) == s1.neis(a)
    } by {
        lemma_filter_push(s1.edges(), src_is(a), e);
        if a == e.src {
            lemma_reverse_push(s1.out_src(a), e);
            assert(s2.out_src(a).reverse() =~= seq![e] + s1.out_src(a).reverse());
            assert((seq![e] + s1.out_src(a).reverse()).map_values(edge_dst()) =~= seq![e.dst]
                + s1.neis(a));
        }
    }
    assert forall|a: int| true implies {
        &&& a == e.dst ==> s2.in_neis(a) == seq![e.src] + s1.in_neis(a)
        &&& a != e.dst ==> s2.in_neis(a) == s1.in_neis(a)
    } by {
        lemma_filter_push(s1.edges(), dst_is(a), e);
        if a == e.dst {
            lemma_reverse_push(s1.in_dst(a), e);
            assert(s2.in_dst(a).reverse() =~= seq![e] + s1.in_dst(a).reverse());
            assert((seq![e] + s1.in_dst(a).reverse()).map_values(edge_src()) =~= seq![e.src]
                + s1.in_neis(a));
        }
    }
}

/// Dropping every edge that touches `v` commutes past the source filter.
proof fn lemma_remove_then_src(es: Seq<GEdge>, v: int, a: int)
    requires
        a != v,
    ensures
        es.filter(untouched_by(v)).filter(src_is(a)) == es.filter(src_is(a)).filter(
            |e: GEdge| e.dst != v,
        ),
    decreases es.len(),
{
    reveal(Seq::filter);
    let keep = untouched_by(v);
    let srca = src_is(a);
    let dstv = |e: GEdge| e.dst != v;
    if es.len() == 0 {
        assert(es.filter(keep).filter(srca) =~= es.filter(srca).filter(dstv));
    } else {
        let rest = es.drop_last();
        let x = es.last();
        lemma_remove_then_src(rest, v, a);
        assert(rest.push(x) =~= es);
        lemma_filter_push(rest, keep, x);
        lemma_filter_push(rest, srca, x);
        if keep(x) {
            lemma_filter_push(rest.filter(keep), srca, x);
        }
        if srca(x) {
            lemma_filter_push(rest.filter(srca), dstv, x);
        }
    }
}

/// The mirrored form of [`lemma_remove_then_src`] for in-edges.
proof fn lemma_remove_then_dst(es: Seq<GEdge>, v: int, a: int)
    requires
        a != v,
    ensures
        es.filter(untouched_by(v)).filter(dst_is(a)) == es.filter(dst_is(a)).filter(
            |e: GEdge| e.src != v,
        ),
    decreases es.len(),
{
    reveal(Seq::filter);
    let keep = untouched_by(v);
    let dsta = dst_is(a);
    let srcv = |e: GEdge| e.src != v;
    if es.len() == 0 {
        assert(es.filter(keep).filter(dsta) =~= es.filter(dsta).filter(srcv));
    } else {
        let rest = es.drop_last();
        let x = es.last();
        lemma_remove_then_dst(rest, v, a);
        assert(rest.push(x) =~= es);
        lemma_filter_push(rest, keep, x);
        lemma_filter_push(rest, dsta, x);
        if keep(x) {
            lemma_filter_push(rest.filter(keep), dsta, x);
        }
        if dsta(x) {
            lemma_filter_push(rest.filter(dsta), srcv, x);
        }
    }
}

/// Removing a node: its own listings empty; every other node's listings just
/// lose the occurrences of the removed address.

#[verifier::spinoff_prover]
pub proof fn lemma_remove_node_edges(s1: Store, s2: Store, v: int)
    requires
        s2.edges() == s1.edges().filter(untouched_by(v)),
    ensures
        s2.neis(v) == Seq::<int>::empty(),
        s2.in_neis(v) == Seq::<int>::empty(),
        forall|a: int| a != v ==> s2.neis(a) == s1.neis(a).filter(ne_addr(v)),
        forall|a: int| a != v ==> s2.in_neis(a) == s1.in_neis(a).filter(ne_addr(v)),
{
    broadcast use vstd::seq_lib::group_seq_properties;

    let keep = untouched_by(v);
    assert forall|a: int| true implies {
        &&& a == v ==> s2.neis(a) == Seq::<int>::empty()
        &&& a != v ==> s2.neis(a) == s1.neis(a).filter(ne_addr(v))
    } by {
        if a == v {
            assert forall|i: int|
                0 <= i < s2.edges().len() implies !(src_is(a)(#[trigger] s2.edges()[i])) by {
                s1.edges().lemma_filter_pred(keep, i);
            }
            lemma_filter_all(s2.edges(), src_is(a));
            assert(s2.out_src(a).reverse() =~= Seq::<GEdge>::empty());
            assert(s2.neis(a) =~= Seq::<int>::empty());
        } else {
            lemma_remove_then_src(s1.edges(), v, a);
            lemma_filter_reverse(s1.out_src(a), |e: GEdge| e.dst != v);
            lemma_filter_congruence(
                s1.out_src(a).reverse(),
                |e: GEdge| ne_addr(v)(edge_dst()(e)),
                |e: GEdge| e.dst != v,
            );
            lemma_map_filter(s1.out_src(a).reverse(), edge_dst(), ne_addr(v));
        }
    }
    assert forall|a: int| true implies {
        &&& a == v ==> s2.in_neis(a) == Seq::<int>::empty()
        &&& a != v ==> s2.in_neis(a) == s1.in_neis(a).filter(ne_addr(v))
    } by {
        if a == v {
            assert forall|i: int|
                0 <= i < s2.edges().len() implies !(dst_is(a)(#[trigger] s2.edges()[i])) by {
                s1.edges().lemma_filter_pred(keep, i);
            }
            lemma_filter_all(s2.edges(), dst_is(a));
            assert(s2.in_dst(a).reverse() =~= Seq::<GEdge>::empty());
            assert(s2.in_neis(a) =~= Seq::<int>::empty());
        } else {
            lemma_remove_then_dst(s1.edges(), v, a);
            lemma_filter_reverse(s1.in_dst(a), |e: GEdge| e.src != v);
            lemma_filter_congruence(
                s1.in_dst(a).reverse(),
                |e: GEdge| ne_addr(v)(edge_src()(e)),
                |e: GEdge| e.src != v,
            );
            lemma_map_filter(s1.in_dst(a).reverse(), edge_src(), ne_addr(v));
        }
    }
}

/// A store with no edges lists no neighbours anywhere.
pub proof fn lemma_no_edges(s: Store)
    requires
        s.edges().len() == 0,
    ensures
        forall|a: int| s.neis(a) == Seq::<int>::empty(),
        forall|a: int| s.in_neis(a) == Seq::<int>::empty(),
{
    assert forall|a: int| s.neis(a) == Seq::<int>::empty() && s.in_neis(a) == Seq::<
        int,
    >::empty() by {
        lemma_filter_all(s.edges(), src_is(a));
        lemma_filter_all(s.edges(), dst_is(a));
        assert(s.edges().filter(src_is(a)) =~= Seq::<GEdge>::empty());
        assert(s.out_src(a).reverse() =~= Seq::<GEdge>::empty());
        assert(s.neis(a) =~= Seq::<int>::empty());
        assert(s.edges().filter(dst_is(a)) =~= Seq::<GEdge>::empty());
        assert(s.in_dst(a).reverse() =~= Seq::<GEdge>::empty());
        assert(s.in_neis(a) =~= Seq::<int>::empty());
    }
}

/// Every element of a filtered sequence comes from the original and
/// satisfies the predicate.
pub proof fn lemma_filter_sub<A>(s: Seq<A>, p: spec_fn(A) -> bool)
    ensures
        forall|i: int|
            0 <= i < s.filter(p).len() ==> s.contains(#[trigger] s.filter(p)[i]) && p(
                s.filter(p)[i],
            ),
    decreases s.len(),
{
    reveal(Seq::filter);
    if s.len() != 0 {
        let rest = s.drop_last();
        lemma_filter_sub(rest, p);
        lemma_filter_push(rest, p, s.last());
        assert(rest.push(s.last()) =~= s);
        assert forall|i: int|
            0 <= i < s.filter(p).len() implies s.contains(#[trigger] s.filter(p)[i]) && p(
            s.filter(p)[i],
        ) by {
            if i < rest.filter(p).len() {
                assert(s.filter(p)[i] == rest.filter(p)[i]);
                assert(rest.contains(rest.filter(p)[i]));
                let j = choose|j: int| 0 <= j < rest.len() && rest[j] == rest.filter(p)[i];
                assert(s[j] == rest[j]);
            } else {
                assert(p(s.last()));
                assert(s.filter(p)[i] == s.last());
                assert(s[s.len() - 1] == s.last());
            }
        }
    }
}

/// A node with no incoming edges appears in no neighbour listing.
pub proof fn lemma_unlisted(s: Store, x: int)
    requires
        forall|i: int| 0 <= i < s.edges().len() ==> (#[trigger] s.edges()[i]).dst != x,
    ensures
        forall|b: int| !s.neis(b).contains(x),
{
    assert forall|b: int| !s.neis(b).contains(x) by {
        if s.neis(b).contains(x) {
            let j = choose|j: int| 0 <= j < s.neis(b).len() && s.neis(b)[j] == x;
            let rev = s.out_src(b).reverse();
            assert(s.neis(b)[j] == rev.map_values(edge_dst())[j]);
            assert(rev[j] == s.out_src(b)[rev.len() - 1 - j]);
            lemma_filter_sub(s.edges(), src_is(b));
            assert(s.edges().contains(rev[j]));
            let k = choose|k: int| 0 <= k < s.edges().len() && s.edges()[k] == rev[j];
            assert(s.edges()[k].dst != x);
        }
    }
}

/// A node with no outgoing edges appears in no reverse listing.
pub proof fn lemma_unlisted_src(s: Store, x: int)
    requires
        forall|i: int| 0 <= i < s.edges().len() ==> (#[trigger] s.edges()[i]).src != x,
    ensures
        forall|b: int| !s.in_neis(b).contains(x),
{
    assert forall|b: int| !s.in_neis(b).contains(x) by {
        if s.in_neis(b).contains(x) {
            let j = choose|j: int| 0 <= j < s.in_neis(b).len() && s.in_neis(b)[j] == x;
            let rev = s.in_dst(b).reverse();
            assert(s.in_neis(b)[j] == rev.map_values(edge_src())[j]);
            assert(rev[j] == s.in_dst(b)[rev.len() - 1 - j]);
            lemma_filter_sub(s.edges(), dst_is(b));
            assert(s.edges().contains(rev[j]));
            let k = choose|k: int| 0 <= k < s.edges().len() && s.edges()[k] == rev[j];
            assert(s.edges()[k].src != x);
        }
    }
}

/// When the prefix of `s` up to `i` filters to empty and `s[i]` satisfies the
/// predicate, `s[i]` is the first filtered element of `s`.
pub proof fn lemma_filter_sub_take(s: Seq<int>, i: int, p: spec_fn(int) -> bool, x: int)
    requires
        0 <= i < s.len(),
        s[i] == x,
        p(x),
        s.take(i).filter(p) == Seq::<int>::empty(),
    ensures
        s.filter(p).len() > 0,
        s.filter(p)[0] == x,
{
    let pre = s.take(i + 1);
    assert(pre =~= s.take(i).push(x));
    lemma_filter_push(s.take(i), p, x);
    assert(pre.filter(p) =~= seq![x]);
    lemma_filter_prefix(s, i + 1, p);
}

/// The filtered prefix of a sequence is a prefix of the filtered sequence.
pub proof fn lemma_filter_prefix(s: Seq<int>, n: int, p: spec_fn(int) -> bool)
    requires
        0 <= n <= s.len(),
    ensures
        s.take(n).filter(p).len() <= s.filter(p).len(),
        forall|j: int|
            0 <= j < s.take(n).filter(p).len() ==> #[trigger] s.filter(p)[j] == s.take(n).filter(
                p,
            )[j],
    decreases s.len() - n,
{
    reveal(Seq::filter);
    if n == s.len() {
        assert(s.take(n) =~= s);
    } else {
        lemma_filter_prefix(s, n + 1, p);
        assert(s.take(n + 1) =~= s.take(n).push(s[n]));
        lemma_filter_push(s.take(n), p, s[n]);
    }
}

/// Filtering twice with independent predicates commutes.
pub proof fn lemma_filter_comm<A>(s: Seq<A>, p: spec_fn(A) -> bool, q: spec_fn(A) -> bool)
    ensures
        s.filter(p).filter(q) == s.filter(q).filter(p),
    decreases s.len(),
{
    reveal(Seq::filter);
    if s.len() == 0 {
        assert(s.filter(p).filter(q) =~= s.filter(q).filter(p));
    } else {
        let rest = s.drop_last();
        let x = s.last();
        lemma_filter_comm(rest, p, q);
        assert(rest.push(x) =~= s);
        lemma_filter_push(rest, p, x);
        lemma_filter_push(rest, q, x);
        if p(x) {
            lemma_filter_push(rest.filter(p), q, x);
        }
        if q(x) {
            lemma_filter_push(rest.filter(q), p, x);
        }
    }
}

/// Membership in a filtered sequence.
pub proof fn lemma_filter_mem<A>(s: Seq<A>, p: spec_fn(A) -> bool, y: A)
    ensures
        s.filter(p).contains(y) <==> (s.contains(y) && p(y)),
    decreases s.len(),
{
    reveal(Seq::filter);
    if s.len() == 0 {
    } else {
        let rest = s.drop_last();
        let x = s.last();
        lemma_filter_mem(rest, p, y);
        assert(rest.push(x) =~= s);
        lemma_filter_push(rest, p, x);
        if s.contains(y) && p(y) {
            let j = choose|j: int| 0 <= j < s.len() && s[j] == y;
            if j < rest.len() {
                assert(rest[j] == y);
                assert(rest.filter(p).contains(y));
                let k = choose|k: int| 0 <= k < rest.filter(p).len() && rest.filter(p)[k] == y;
                if p(x) {
                    assert(s.filter(p)[k] == y);
                } else {
                    assert(s.filter(p)[k] == y);
                }
            } else {
                assert(y == x);
                assert(s.filter(p).last() == x);
            }
        }
        if s.filter(p).contains(y) {
            let j = choose|j: int| 0 <= j < s.filter(p).len() && s.filter(p)[j] == y;
            if p(x) && j == s.filter(p).len() - 1 {
                assert(y == x);
                assert(s[s.len() - 1] == x);
            } else {
                assert(rest.filter(p)[j] == y);
                assert(rest.filter(p).contains(y));
                let k = choose|k: int| 0 <= k < rest.len() && rest[k] == y;
                assert(s[k] == y);
            }
        }
    }
}

/// Filtering preserves freedom from duplicates.
pub proof fn lemma_filter_nodup<A>(s: Seq<A>, p: spec_fn(A) -> bool)
    requires
        s.no_duplicates(),
    ensures
        s.filter(p).no_duplicates(),
    decreases s.len(),
{
    reveal(Seq::filter);
    if s.len() != 0 {
        let rest = s.drop_last();
        let x = s.last();
        assert(rest.push(x) =~= s);
        assert(forall|i: int| 0 <= i < rest.len() ==> rest[i] == s[i]);
        assert(rest.no_duplicates()) by {
            assert forall|i: int, j: int|
                0 <= i < rest.len() && 0 <= j < rest.len() && i != j implies rest[i] != rest[j] by {
                assert(s[i] == rest[i] && s[j] == rest[j]);
            }
        }
        lemma_filter_nodup(rest, p);
        lemma_filter_push(rest, p, x);
        if p(x) {
            assert(!rest.contains(x)) by {
                if rest.contains(x) {
                    let j = choose|j: int| 0 <= j < rest.len() && rest[j] == x;
                    assert(s[j] == x && s[s.len() - 1] == x);
                }
            }
            assert(!rest.filter(p).contains(x)) by {
                lemma_filter_mem(rest, p, x);
            }
            assert(rest.filter(p).push(x).no_duplicates()) by {
                vstd::seq_lib::lemma_no_dup_in_concat(rest.filter(p), seq![x]);
                assert(rest.filter(p) + seq![x] =~= rest.filter(p).push(x));
            }
        }
    }
}

/// A pointwise-stronger predicate filters to at most as many elements.
pub proof fn lemma_filter_imp_len<A>(s: Seq<A>, p: spec_fn(A) -> bool, q: spec_fn(A) -> bool)
    requires
        forall|i: int| 0 <= i < s.len() && p(#[trigger] s[i]) ==> q(s[i]),
    ensures
        s.filter(p).len() <= s.filter(q).len(),
    decreases s.len(),
{
    reveal(Seq::filter);
    if s.len() != 0 {
        let rest = s.drop_last();
        let x = s.last();
        assert(rest.push(x) =~= s);
        assert(forall|i: int| 0 <= i < rest.len() ==> rest[i] == s[i]);
        lemma_filter_imp_len(rest, p, q);
        lemma_filter_push(rest, p, x);
        lemma_filter_push(rest, q, x);
        assert(s[s.len() - 1] == x);
    }
}

/// Filtering out the head of a duplicate-free sequence keeps exactly the
/// tail.
pub proof fn lemma_filter_drop_head(s: Seq<int>, x: int)
    requires
        s.len() > 0,
        s[0] == x,
        s.no_duplicates(),
    ensures
        s.filter(ne_addr(x)) == s.subrange(1, s.len() as int),
    decreases s.len(),
{
    reveal(Seq::filter);
    let ne = ne_addr(x);
    if s.len() == 1 {
        assert(s.drop_last() =~= Seq::<int>::empty());
        assert(s.last() == x);
        assert(Seq::<int>::empty().filter(ne) =~= Seq::<int>::empty());
        assert(!ne(s.last()));
        lemma_filter_push(Seq::<int>::empty(), ne, s.last());
        assert(Seq::<int>::empty().push(s.last()) =~= s);
        assert(s.filter(ne) =~= s.subrange(1, 1));
    } else {
        let rest = s.drop_last();
        assert(forall|i: int| 0 <= i < rest.len() ==> rest[i] == s[i]);
        assert(rest.no_duplicates()) by {
            assert forall|i: int, j: int|
                0 <= i < rest.len() && 0 <= j < rest.len() && i != j implies rest[i] != rest[j] by {
                assert(s[i] == rest[i] && s[j] == rest[j]);
            }
        }
        lemma_filter_drop_head(rest, x);
        lemma_filter_push(rest, ne, s.last());
        assert(rest.push(s.last()) =~= s);
        assert(s.last() != x) by {
            assert(s[s.len() - 1] == s.last());
            assert(s[0] == x);
        }
        assert(s.filter(ne) == rest.filter(ne).push(s.last()));
        assert(rest.subrange(1, rest.len() as int).push(s.last()) =~= s.subrange(
            1,
            s.len() as int,
        ));
    }
}


/// Removing the edge with one identifier: the source filter of any other
/// node is unchanged, and for the edge's own source the two filters commute.
pub proof fn lemma_edge_filter_frame_src(es: Seq<GEdge>, e: GEdge, a: int)
    requires
        forall|i: int| 0 <= i < es.len() && (#[trigger] es[i]).eid == e.eid ==> es[i] == e,
    ensures
        es.filter(not_eid(e.eid)).filter(src_is(a)) == es.filter(src_is(a)).filter(
            not_eid(e.eid),
        ),
        a != e.src ==> es.filter(src_is(a)).filter(not_eid(e.eid)) == es.filter(src_is(a)),
    decreases es.len(),
{
    reveal(Seq::filter);
    let ne = not_eid(e.eid);
    let srca = src_is(a);
    if es.len() == 0 {
        assert(es.filter(ne).filter(srca) =~= es.filter(srca).filter(ne));
        assert(es.filter(srca).filter(ne) =~= es.filter(srca));
    } else {
        let rest = es.drop_last();
        let x = es.last();
        assert(forall|i: int| 0 <= i < rest.len() ==> rest[i] == es[i]);
        lemma_edge_filter_frame_src(rest, e, a);
        assert(rest.push(x) =~= es);
        lemma_filter_push(rest, ne, x);
        lemma_filter_push(rest, srca, x);
        if ne(x) {
            lemma_filter_push(rest.filter(ne), srca, x);
        } else {
            assert(es[es.len() - 1] == x);
            assert(x == e);
        }
        if srca(x) {
            lemma_filter_push(rest.filter(srca), ne, x);
        }
    }
}

/// The mirrored form of [`lemma_edge_filter_frame_src`] for in-edges.
pub proof fn lemma_edge_filter_frame_dst(es: Seq<GEdge>, e: GEdge, a: int)
    requires
        forall|i: int| 0 <= i < es.len() && (#[trigger] es[i]).eid == e.eid ==> es[i] == e,
    ensures
        es.filter(not_eid(e.eid)).filter(dst_is(a)) == es.filter(dst_is(a)).filter(
            not_eid(e.eid),
        ),
        a != e.dst ==> es.filter(dst_is(a)).filter(not_eid(e.eid)) == es.filter(dst_is(a)),
    decreases es.len(),
{
    reveal(Seq::filter);
    let ne = not_eid(e.eid);
    let dsta = dst_is(a);
    if es.len() == 0 {
        assert(es.filter(ne).filter(dsta) =~= es.filter(dsta).filter(ne));
        assert(es.filter(dsta).filter(ne) =~= es.filter(dsta));
    } else {
        let rest = es.drop_last();
        let x = es.last();
        assert(forall|i: int| 0 <= i < rest.len() ==> rest[i] == es[i]);
        lemma_edge_filter_frame_dst(rest, e, a);
        assert(rest.push(x) =~= es);
        lemma_filter_push(rest, ne, x);
        lemma_filter_push(rest, dsta, x);
        if ne(x) {
            lemma_filter_push(rest.filter(ne), dsta, x);
        } else {
            assert(es[es.len() - 1] == x);
            assert(x == e);
        }
        if dsta(x) {
            lemma_filter_push(rest.filter(dsta), ne, x);
        }
    }
}


/// Dropping one edge whose source a predicate rejects leaves the filtered
/// source listing of any edge sequence unchanged.
pub proof fn lemma_drop_edge_keeps_kind_listing(
    zs: Seq<GEdge>,
    e: GEdge,
    q: spec_fn(int) -> bool,
)
    requires
        forall|i: int| 0 <= i < zs.len() && (#[trigger] zs[i]).eid == e.eid ==> zs[i] == e,
        !q(e.src),
    ensures
        zs.filter(not_eid(e.eid)).map_values(edge_src()).filter(q) == zs.map_values(
            edge_src(),
        ).filter(q),
    decreases zs.len(),
{
    reveal(Seq::filter);
    let ne = not_eid(e.eid);
    if zs.len() == 0 {
        assert(zs.filter(ne).map_values(edge_src()).filter(q) =~= zs.map_values(
            edge_src(),
        ).filter(q));
    } else {
        let rest = zs.drop_last();
        let x = zs.last();
        assert(forall|i: int| 0 <= i < rest.len() ==> rest[i] == zs[i]);
        lemma_drop_edge_keeps_kind_listing(rest, e, q);
        assert(rest.push(x) =~= zs);
        lemma_filter_push(rest, ne, x);
        assert(zs.map_values(edge_src()) =~= rest.map_values(edge_src()).push(edge_src()(x)));
        lemma_filter_push(rest.map_values(edge_src()), q, edge_src()(x));
        if ne(x) {
            assert(rest.filter(ne).push(x).map_values(edge_src()) =~= rest.filter(ne).map_values(
                edge_src(),
            ).push(edge_src()(x)));
            lemma_filter_push(rest.filter(ne).map_values(edge_src()), q, edge_src()(x));
        } else {
            assert(zs[zs.len() - 1] == x);
            assert(x == e);
            assert(!q(edge_src()(x)));
        }
    }
}

} // verus!
