//! Positions form a total order (up to ties), and sorting by position is a
//! stable sort.
use vstd::prelude::*;
use vstd::seq_lib::{to_multiset_build, to_multiset_insert};

use super::{first_after, lemma_first_after_bounds, pos_order, sort_by_position, PosKey};

verus! {

/// Swapping two positions flips their comparison.
pub proof fn lemma_pos_antisymmetric(a: PosKey, b: PosKey)
    ensures
        pos_order(a, b) == -pos_order(b, a),
{
}

/// Comparing positions is transitive.
pub proof fn lemma_pos_transitive(a: PosKey, b: PosKey, c: PosKey)
    requires
        pos_order(a, b) <= 0,
        pos_order(b, c) <= 0,
    ensures
        pos_order(a, c) <= 0,
{
}

/// Positions that tie compare alike with every other position.
pub proof fn lemma_pos_tie(a: PosKey, b: PosKey, c: PosKey)
    requires
        pos_order(a, b) == 0,
    ensures
        pos_order(a, c) == pos_order(b, c),
{
}

/// Whether the entries come in order of position.
pub open spec fn sorted_by_position<T>(s: Seq<(PosKey, T)>) -> bool {
    forall|i: int, j: int| 0 <= i < j < s.len() ==> pos_order(s[i].0, s[j].0) <= 0
}

/// Whether an entry sits at a position that ties with `k`.
pub open spec fn at_position<T>(k: PosKey) -> spec_fn((PosKey, T)) -> bool {
    |e: (PosKey, T)| pos_order(e.0, k) == 0
}

proof fn lemma_first_after<T>(s: Seq<(PosKey, T)>, k: PosKey, i: int)
    requires
        0 <= i <= s.len(),
    ensures
        forall|m: int| i <= m < first_after(s, k, i) ==> pos_order(#[trigger] s[m].0, k) <= 0,
        first_after(s, k, i) < s.len() ==> pos_order(s[first_after(s, k, i)].0, k) > 0,
    decreases s.len() - i,
{
    if 0 <= i < s.len() && pos_order(s[i].0, k) <= 0 {
        lemma_first_after(s, k, i + 1);
    }
}

/// After the place `first_after` finds in sorted entries, every entry comes
/// strictly after `k`.
proof fn lemma_after_place<T>(s: Seq<(PosKey, T)>, k: PosKey, m: int)
    requires
        sorted_by_position(s),
        first_after(s, k, 0) <= m < s.len(),
    ensures
        pos_order(s[m].0, k) > 0,
{
    let at = first_after(s, k, 0);
    lemma_first_after_bounds(s, k, 0);
    lemma_first_after(s, k, 0);
    if pos_order(s[m].0, k) <= 0 {
        if at < m {
            assert(pos_order(s[at].0, s[m].0) <= 0);
            lemma_pos_transitive(s[at].0, s[m].0, k);
        }
    }
}

proof fn lemma_insert_sorted<T>(s: Seq<(PosKey, T)>, x: (PosKey, T))
    requires
        sorted_by_position(s),
    ensures
        sorted_by_position(s.insert(first_after(s, x.0, 0), x)),
{
    let at = first_after(s, x.0, 0);
    lemma_first_after_bounds(s, x.0, 0);
    lemma_first_after(s, x.0, 0);
    let r = s.insert(at, x);
    assert forall|i: int, j: int| 0 <= i < j < r.len() implies pos_order(r[i].0, r[j].0) <= 0 by {
        if j < at {
            assert(r[i] == s[i] && r[j] == s[j]);
        } else if j == at {
            assert(r[i] == s[i]);
        } else if i < at {
            assert(r[i] == s[i] && r[j] == s[j - 1]);
            lemma_after_place(s, x.0, j - 1);
            lemma_pos_antisymmetric(s[j - 1].0, x.0);
            lemma_pos_transitive(s[i].0, x.0, s[j - 1].0);
        } else if i == at {
            assert(r[j] == s[j - 1]);
            lemma_after_place(s, x.0, j - 1);
            lemma_pos_antisymmetric(s[j - 1].0, x.0);
        } else {
            assert(r[i] == s[i - 1] && r[j] == s[j - 1]);
        }
    }
}

/// Sorting by position puts the entries in order of position.
pub proof fn sort_orders_by_position<T>(s: Seq<(PosKey, T)>)
    ensures
        sorted_by_position(sort_by_position(s)),
    decreases s.len(),
{
    if s.len() > 0 {
        sort_orders_by_position(s.drop_last());
        lemma_insert_sorted(sort_by_position(s.drop_last()), s.last());
    }
}

/// Sorting by position neither drops nor adds an entry.
pub proof fn sort_keeps_entries<T>(s: Seq<(PosKey, T)>)
    ensures
        sort_by_position(s).to_multiset() == s.to_multiset(),
    decreases s.len(),
{
    if s.len() > 0 {
        let d = s.drop_last();
        let sd = sort_by_position(d);
        sort_keeps_entries(d);
        lemma_first_after_bounds(sd, s.last().0, 0);
        to_multiset_insert(sd, first_after(sd, s.last().0, 0), s.last());
        to_multiset_build(d, s.last());
        assert(d.push(s.last()) =~= s);
    }
}

proof fn lemma_filter_none<T>(s: Seq<T>, pred: spec_fn(T) -> bool)
    requires
        forall|i: int| 0 <= i < s.len() ==> !pred(#[trigger] s[i]),
    ensures
        s.filter(pred) == Seq::<T>::empty(),
    decreases s.len(),
{
    if s.len() > 0 {
        lemma_filter_none(s.drop_last(), pred);
        s.drop_last().lemma_filter_push(s.last(), pred);
        assert(s.drop_last().push(s.last()) =~= s);
    } else {
        reveal(Seq::filter);
    }
}

/// Sorting by position keeps the order of entries at tying positions: for
/// every position, the entries that tie with it come out in the order they
/// came in.
pub proof fn sort_keeps_ties_in_order<T>(s: Seq<(PosKey, T)>, k: PosKey)
    ensures
        sort_by_position(s).filter(at_position::<T>(k)) == s.filter(at_position::<T>(k)),
    decreases s.len(),
{
    let pred = at_position::<T>(k);
    if s.len() == 0 {
    } else {
        let d = s.drop_last();
        let x = s.last();
        let sd = sort_by_position(d);
        let at = first_after(sd, x.0, 0);
        sort_keeps_ties_in_order(d, k);
        sort_orders_by_position(d);
        lemma_first_after_bounds(sd, x.0, 0);
        let a = sd.take(at);
        let b = sd.skip(at);
        assert(sd == a + b);
        assert(sd.insert(at, x) =~= a + seq![x] + b);
        Seq::filter_distributes_over_add(a + seq![x], b, pred);
        Seq::filter_distributes_over_add(a, seq![x], pred);
        Seq::filter_distributes_over_add(a, b, pred);
        Seq::<(PosKey, T)>::empty().lemma_filter_push(x, pred);
        assert(Seq::<(PosKey, T)>::empty().push(x) =~= seq![x]);
        reveal(Seq::filter);
        assert(Seq::<(PosKey, T)>::empty().filter(pred) == Seq::<(PosKey, T)>::empty());
        d.lemma_filter_push(x, pred);
        assert(d.push(x) =~= s);
        if pred(x) {
            assert forall|i: int| 0 <= i < b.len() implies !pred(#[trigger] b[i]) by {
                lemma_after_place(sd, x.0, at + i);
                lemma_pos_antisymmetric(b[i].0, x.0);
                lemma_pos_tie(x.0, k, b[i].0);
                lemma_pos_antisymmetric(k, b[i].0);
            }
            lemma_filter_none(b, pred);
            assert(b.filter(pred) + Seq::<(PosKey, T)>::empty() =~= b.filter(pred));
        }
    }
}

} // verus!
