//! Laws of the search: what is found, and in which order.
use vstd::prelude::*;
use crate::api::{found, hits, is_hit, shown, SEARCH_MAX_RESULTS};
use crate::index::{located, IndexView};
use crate::snapshot_laws::lemma_in_order_exists;
use crate::text::{lemma_text_lt_total, text_lt};
use crate::textmap::{in_order, lemma_pair_lt_total, pair_lt};

verus! {

/// Only finitely many nodes can be found.
proof fn lemma_hits_finite(s: IndexView, needle: Seq<char>, dirs: bool)
    requires
        s.nodes.dom().finite(),
    ensures
        hits(s, needle, dirs).finite(),
{
    let all = s.nodes.dom().map(|x: Seq<char>| (located(s, x)->0, x));
    s.nodes.dom().lemma_map_finite(|x: Seq<char>| (located(s, x)->0, x));
    assert forall|e: (Seq<char>, Seq<char>)| #[trigger]
        hits(s, needle, dirs).contains(e) implies all.contains(e) by {
        assert(s.nodes.dom().contains(e.1));
        assert(e == (located(s, e.1)->0, e.1));
    }
    vstd::set_lib::lemma_len_subset(hits(s, needle, dirs), all);
}

/// Whether result `a` may come before result `b`: folders come before files,
/// and within each kind paths do not descend.
pub open spec fn may_precede(
    s: IndexView,
    a: (Seq<char>, Seq<char>),
    b: (Seq<char>, Seq<char>),
) -> bool {
    &&& s.nodes[b.1].meta.is_dir ==> s.nodes[a.1].meta.is_dir
    &&& s.nodes[a.1].meta.is_dir == s.nodes[b.1].meta.is_dir ==> !text_lt(b.0, a.0)
}

/// A search finds each matching node once, with its path, and nothing else;
/// folders come first, and folders and files each come by path.
pub proof fn law_search_order(s: IndexView, needle: Seq<char>)
    requires
        s.nodes.dom().finite(),
    ensures
        forall|i: int|
            0 <= i < found(s, needle).len() ==> is_hit(s, needle, (#[trigger] found(s, needle)[i]).1)
                && located(s, found(s, needle)[i].1) == Some(found(s, needle)[i].0),
        forall|x: Seq<char>| #[trigger]
            is_hit(s, needle, x) ==> found(s, needle).contains((located(s, x)->0, x)),
        found(s, needle).no_duplicates(),
        forall|i: int, j: int|
            0 <= i < j < found(s, needle).len() ==> may_precede(
                s,
                #[trigger] found(s, needle)[i],
                #[trigger] found(s, needle)[j],
            ),
{
    let a = in_order(hits(s, needle, true));
    let b = in_order(hits(s, needle, false));
    lemma_hits_finite(s, needle, true);
    lemma_hits_finite(s, needle, false);
    lemma_in_order_exists(hits(s, needle, true));
    lemma_in_order_exists(hits(s, needle, false));
    let all = found(s, needle);
    assert forall|i: int| 0 <= i < all.len() implies (if i < a.len() {
        hits(s, needle, true).contains(#[trigger] all[i])
    } else {
        hits(s, needle, false).contains(all[i])
    }) by {
        if i < a.len() {
            assert(a.to_set().contains(a[i]));
        } else {
            assert(b.to_set().contains(b[i - a.len()]));
        }
    }
    assert forall|x: Seq<char>| #[trigger] is_hit(s, needle, x) implies all.contains(
        (located(s, x)->0, x),
    ) by {
        let e = (located(s, x)->0, x);
        if s.nodes[x].meta.is_dir {
            assert(a.to_set().contains(e));
            let i = choose|i: int| 0 <= i < a.len() && a[i] == e;
            assert(all[i] == e);
        } else {
            assert(b.to_set().contains(e));
            let i = choose|i: int| 0 <= i < b.len() && b[i] == e;
            assert(all[a.len() + i] == e);
        }
    }
    assert forall|i: int, j: int| 0 <= i < j < all.len() implies may_precede(
        s,
        #[trigger] all[i],
        #[trigger] all[j],
    ) && all[i] != all[j] by {
        if j < a.len() {
            assert(pair_lt(a[i], a[j]));
        } else if i >= a.len() {
            assert(pair_lt(b[i - a.len()], b[j - a.len()]));
        }
        lemma_pair_lt_total(all[i], all[j]);
        lemma_text_lt_total(all[i].0, all[j].0);
    }
}

/// No more than the first results are given out, and all of them if they are
/// few enough.
pub proof fn law_search_is_bounded(es: Seq<(Seq<char>, Seq<char>)>)
    ensures
        shown(es).len() <= SEARCH_MAX_RESULTS,
        shown(es) == es.take(shown(es).len() as int),
        es.len() <= SEARCH_MAX_RESULTS ==> shown(es) == es,
{
    assert(shown(es) =~= es.take(shown(es).len() as int));
}

} // verus!
