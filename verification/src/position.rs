//! The order of Trello `pos` numbers. A position is read as a binary64
//! float, and positions compare as those floats do. Floats are not computed
//! here: each number token comes with an order key, a `u64` computed from
//! its float value by the program that holds the floats, one that grows with
//! the value and is the same for equal values (so `-0` and `0` tie). A
//! [`PositionKeys`] table carries the keys; the order below is the order of
//! the keys.
use vstd::prelude::*;

use crate::text::bytes_eq;

pub mod order;

verus! {

/// A position, by its order key.
pub struct PosKey {
    pub rank: u64,
}

/// How two positions compare: -1, 0 or 1.
pub open spec fn pos_order(a: PosKey, b: PosKey) -> int {
    if a.rank < b.rank {
        -1
    } else if a.rank > b.rank {
        1
    } else {
        0
    }
}

/// The order keys of number tokens: the key of zero (for a missing `pos`),
/// and a key for each token listed.
pub struct KeyTable {
    pub zero: u64,
    pub entries: Seq<(Seq<u8>, u64)>,
}

/// The key listed first for `token` from index `i` on, or the key of zero
/// where none is.
pub open spec fn key_from(table: KeyTable, token: Seq<u8>, i: int) -> u64
    decreases table.entries.len() - i,
{
    if !(0 <= i < table.entries.len()) {
        table.zero
    } else if table.entries[i].0 == token {
        table.entries[i].1
    } else {
        key_from(table, token, i + 1)
    }
}

/// The position of a number token.
pub open spec fn token_key(table: KeyTable, token: Seq<u8>) -> PosKey {
    PosKey { rank: key_from(table, token, 0) }
}

/// The position of a missing or non-numeric `pos`: zero.
pub open spec fn zero_key(table: KeyTable) -> PosKey {
    PosKey { rank: table.zero }
}

/// A position as the program holds it.
pub struct Position {
    rank: u64,
}

impl View for Position {
    type V = PosKey;

    closed spec fn view(&self) -> PosKey {
        PosKey { rank: self.rank }
    }
}

impl Position {
    /// How this position compares with another: -1, 0 or 1.
    pub fn compare(&self, other: &Position) -> (r: i8)
        ensures
            r as int == pos_order(self@, other@),
    {
        if self.rank < other.rank {
            -1
        } else if self.rank > other.rank {
            1
        } else {
            0
        }
    }
}

/// Order keys of number tokens, as the program that reads the floats
/// computes them: the key of zero, and a key for each token it lists.
pub struct PositionKeys {
    zero: u64,
    entries: Vec<(Vec<u8>, u64)>,
}

impl View for PositionKeys {
    type V = KeyTable;

    closed spec fn view(&self) -> KeyTable {
        KeyTable { zero: self.zero, entries: self.entries@.map_values(|e: (Vec<u8>, u64)| (e.0@, e.1)) }
    }
}

impl PositionKeys {
    /// A table listing no token, with `zero` the key of zero.
    pub fn new(zero: u64) -> (r: PositionKeys)
        ensures
            r@ == (KeyTable { zero, entries: Seq::empty() }),
    {
        let r = PositionKeys { zero, entries: Vec::new() };
        assert(r@.entries =~= Seq::<(Seq<u8>, u64)>::empty());
        r
    }

    /// Lists `token` with key `key`, after the tokens listed so far.
    pub fn add(&mut self, token: &[u8], key: u64)
        ensures
            final(self)@ == (KeyTable {
                zero: old(self)@.zero,
                entries: old(self)@.entries.push((token@, key)),
            }),
    {
        let ghost before = self@;
        self.entries.push((vstd::slice::slice_to_vec(token), key));
        assert(self@.entries =~= before.entries.push((token@, key)));
    }

    /// The position of a missing or non-numeric `pos`.
    pub fn zero(&self) -> (r: Position)
        ensures
            r@ == zero_key(self@),
    {
        Position { rank: self.zero }
    }

    /// The position of a number token: its listed key, or the key of zero
    /// where the token is not listed.
    pub fn key_of(&self, token: &[u8]) -> (r: Position)
        ensures
            r@ == token_key(self@, token@),
    {
        let ghost t = self@;
        let mut i: usize = 0;
        while i < self.entries.len()
            invariant
                i <= self.entries@.len(),
                t == self@,
                t.entries.len() == self.entries@.len(),
                key_from(t, token@, i as int) == key_from(t, token@, 0),
            decreases self.entries@.len() - i,
        {
            assert(t.entries[i as int] == (self.entries@[i as int].0@, self.entries@[i as int].1));
            if bytes_eq(self.entries[i].0.as_slice(), token) {
                return Position { rank: self.entries[i].1 };
            }
            i = i + 1;
        }
        Position { rank: self.zero }
    }
}

/// Index of the first entry from `i` on whose position comes after `k`, or
/// the length.
pub open spec fn first_after<T>(s: Seq<(PosKey, T)>, k: PosKey, i: int) -> int
    decreases s.len() - i,
{
    if 0 <= i < s.len() && pos_order(s[i].0, k) <= 0 {
        first_after(s, k, i + 1)
    } else {
        i
    }
}

/// Entries in order of position; entries at equal positions keep their
/// order (a stable sort, as `slice::sort_by` is).
pub open spec fn sort_by_position<T>(s: Seq<(PosKey, T)>) -> Seq<(PosKey, T)>
    decreases s.len(),
{
    if s.len() == 0 {
        s
    } else {
        let sorted = sort_by_position(s.drop_last());
        sorted.insert(first_after(sorted, s.last().0, 0), s.last())
    }
}

pub proof fn lemma_first_after_bounds<T>(s: Seq<(PosKey, T)>, k: PosKey, i: int)
    requires
        0 <= i <= s.len(),
    ensures
        i <= first_after(s, k, i) <= s.len(),
    decreases s.len() - i,
{
    if 0 <= i < s.len() && pos_order(s[i].0, k) <= 0 {
        lemma_first_after_bounds(s, k, i + 1);
    }
}

pub proof fn lemma_sort_len<T>(s: Seq<(PosKey, T)>)
    ensures
        sort_by_position(s).len() == s.len(),
    decreases s.len(),
{
    if s.len() > 0 {
        lemma_sort_len(s.drop_last());
        lemma_first_after_bounds(sort_by_position(s.drop_last()), s.last().0, 0);
    }
}

/// The entries' values mapped by `f`, positions kept.
pub open spec fn map_entries<T, U>(s: Seq<(PosKey, T)>, f: spec_fn(T) -> U) -> Seq<(PosKey, U)> {
    s.map_values(|e: (PosKey, T)| (e.0, f(e.1)))
}

proof fn lemma_first_after_map<T, U>(s: Seq<(PosKey, T)>, f: spec_fn(T) -> U, k: PosKey, i: int)
    ensures
        first_after(map_entries(s, f), k, i) == first_after(s, k, i),
    decreases s.len() - i,
{
    if 0 <= i < s.len() && pos_order(s[i].0, k) <= 0 {
        lemma_first_after_map(s, f, k, i + 1);
    }
}

/// Sorting by position does not look at the values: mapping them before
/// or after gives the same.
pub proof fn lemma_sort_map<T, U>(s: Seq<(PosKey, T)>, f: spec_fn(T) -> U)
    ensures
        sort_by_position(map_entries(s, f)) == map_entries(sort_by_position(s), f),
    decreases s.len(),
{
    if s.len() > 0 {
        let m = map_entries(s, f);
        assert(m.drop_last() =~= map_entries(s.drop_last(), f));
        lemma_sort_map(s.drop_last(), f);
        let sorted = sort_by_position(s.drop_last());
        lemma_first_after_map(sorted, f, s.last().0, 0);
        lemma_first_after_bounds(sorted, s.last().0, 0);
        let j = first_after(sorted, s.last().0, 0);
        assert(map_entries(sorted.insert(j, s.last()), f) =~= map_entries(sorted, f).insert(
            j,
            m.last(),
        ));
    } else {
        assert(map_entries(s, f) =~= s.map_values(|e: (PosKey, T)| (e.0, f(e.1))));
    }
}

/// Entries with their positions as [`PosKey`]s.
pub open spec fn keyed<T>(s: Seq<(Position, T)>) -> Seq<(PosKey, T)> {
    s.map_values(|e: (Position, T)| (e.0@, e.1))
}

fn find_first_after<T>(v: &Vec<(Position, T)>, k: &Position) -> (j: usize)
    ensures
        j == first_after(keyed(v@), k@, 0),
        j <= v@.len(),
{
    let ghost s = keyed(v@);
    proof {
        lemma_first_after_bounds(s, k@, 0);
    }
    let mut j: usize = 0;
    while j < v.len() && v[j].0.compare(k) <= 0
        invariant
            j <= v@.len(),
            s == keyed(v@),
            first_after(s, k@, j as int) == first_after(s, k@, 0),
        decreases v@.len() - j,
    {
        j = j + 1;
    }
    j
}

/// Sorts entries by position, stably.
pub fn sort_by_position_exec<T>(items: Vec<(Position, T)>) -> (r: Vec<(Position, T)>)
    ensures
        keyed(r@) == sort_by_position(keyed(items@)),
{
    let ghost orig = keyed(items@);
    let n = items.len();
    let mut rest = items;
    let mut out: Vec<(Position, T)> = Vec::new();
    assert(orig.take(0) =~= Seq::<(PosKey, T)>::empty());
    assert(keyed(out@) =~= sort_by_position(orig.take(0)));
    assert(keyed(rest@) =~= orig.skip(0));
    while rest.len() > 0
        invariant
            n == orig.len(),
            rest@.len() <= n,
            keyed(out@) == sort_by_position(orig.take(n - rest@.len())),
            keyed(rest@) == orig.skip(n - rest@.len()),
        decreases rest@.len(),
    {
        let ghost k = n - rest@.len();
        let ghost before_rest = rest@;
        let x = rest.remove(0);
        assert(keyed(rest@) =~= orig.skip(k + 1)) by {
            assert(rest@ =~= before_rest.drop_first());
            assert(keyed(before_rest.drop_first()) =~= keyed(before_rest).drop_first());
            assert(orig.skip(k).drop_first() =~= orig.skip(k + 1));
        }
        assert(orig[k] == (x.0@, x.1)) by {
            assert(keyed(before_rest)[0] == orig.skip(k)[0]);
        }
        let j = find_first_after(&out, &x.0);
        let ghost before_out = out@;
        out.insert(j, x);
        proof {
            assert(orig.take(k + 1).drop_last() =~= orig.take(k));
            assert(orig.take(k + 1).last() == orig[k]);
            assert(keyed(out@) =~= keyed(before_out).insert(j as int, (x.0@, x.1)));
        }
    }
    assert(orig.take(n as int) =~= orig);
    out
}

} // verus!
