//! The laws the routing contracts obey: how an insertion, a removal and a
//! lookup of the same path relate, stated over the trie's abstract contents.
use vstd::prelude::*;

use crate::TrieView;
use crate::clean_path;
use crate::is_wildcard_path;
use crate::lookup;
use crate::spec_insert;
use crate::spec_remove;
use crate::spec_removed;
use crate::wild_lookup;

verus! {

/// Round trip: registering an exact route and looking the same path up
/// again yields the registered value, whatever else the trie holds.
pub proof fn lemma_insert_then_get<T>(v: TrieView<T>, p: Seq<char>, value: T)
    requires
        !is_wildcard_path(p),
    ensures
        lookup(spec_insert(v, p, value), p) == Some(value),
{
}

/// Round trip for a wildcard route, looked up under its raw spelling: the
/// registered value is found, unless an exact route at the raw path or a
/// wildcard route with a longer base shadows it.
pub proof fn lemma_insert_wildcard_then_get<T>(v: TrieView<T>, p: Seq<char>, value: T)
    requires
        is_wildcard_path(p),
        !v.exact.contains_key(p),
        !v.wild.contains_key(p.take(p.len() - 1)),
        !v.wild.contains_key(p),
    ensures
        lookup(spec_insert(v, p, value), p) == Some(value),
{
    let v2 = spec_insert(v, p, value);
    let n = p.len() as int;
    assert(p.take(n) =~= p);
    assert(clean_path(p).len() == n - 2);
    assert(!v2.wild.contains_key(p.take(n)));
    assert(!v2.wild.contains_key(p.take(n - 1)));
    assert(v2.wild.contains_key(p.take(n - 2)));
    assert(wild_lookup(v2.wild, p, n) == wild_lookup(v2.wild, p, n - 1));
    assert(wild_lookup(v2.wild, p, n - 1) == wild_lookup(v2.wild, p, n - 2));
    assert(wild_lookup(v2.wild, p, n - 2) == Some(value));
}

/// Precedence: an exact route registered at the path itself always wins
/// over every wildcard route.
pub proof fn lemma_exact_beats_wildcard<T>(v: TrieView<T>, p: Seq<char>)
    requires
        v.exact.contains_key(p),
    ensures
        lookup(v, p) == Some(v.exact[p]),
{
}

/// Wildcard breadth: with no exact route at the path, the answer is the
/// wildcard route at the longest registered base that is a prefix of the
/// path, however much longer the path is than that base.
pub proof fn lemma_longest_wildcard_wins<T>(v: TrieView<T>, p: Seq<char>, n: int)
    requires
        !v.exact.contains_key(p),
        0 <= n <= p.len(),
        v.wild.contains_key(p.take(n)),
        forall|j: int| n < j <= p.len() ==> !v.wild.contains_key(#[trigger] p.take(j)),
    ensures
        lookup(v, p) == Some(v.wild[p.take(n)]),
{
    lemma_wild_lookup_finds_base(v.wild, p, n, p.len() as int);
}

/// The wildcard search run down to bound `k` answers the base at `n` when
/// no base of a length in between is registered.
proof fn lemma_wild_lookup_finds_base<T>(w: Map<Seq<char>, T>, p: Seq<char>, n: int, k: int)
    requires
        0 <= n <= k <= p.len(),
        w.contains_key(p.take(n)),
        forall|j: int| n < j <= k ==> !w.contains_key(#[trigger] p.take(j)),
    ensures
        wild_lookup(w, p, k) == Some(w[p.take(n)]),
    decreases k,
{
    if k > n {
        lemma_wild_lookup_finds_base(w, p, n, k - 1);
    }
}

/// Without any wildcard route whose base is a prefix of the path, the
/// wildcard search finds nothing.
pub proof fn lemma_wild_lookup_none<T>(w: Map<Seq<char>, T>, p: Seq<char>, k: int)
    requires
        forall|j: int| 0 <= j <= k ==> !w.contains_key(#[trigger] p.take(j)),
    ensures
        wild_lookup(w, p, k) is None,
    decreases k + 1,
{
    if k >= 0 {
        lemma_wild_lookup_none(w, p, k - 1);
    }
}

/// Removal: removing a path right after registering it gives the registered
/// value back, and a later lookup of that path finds only whatever wildcard
/// route still covers it — nothing, if none does.
pub proof fn lemma_insert_then_remove<T>(v: TrieView<T>, p: Seq<char>, value: T)
    ensures
        spec_removed(spec_insert(v, p, value), p) == Some(value),
        !is_wildcard_path(p) ==> lookup(spec_remove(spec_insert(v, p, value), p), p)
            == wild_lookup(v.wild, p, p.len() as int),
{
    let v1 = spec_insert(v, p, value);
    let v2 = spec_remove(v1, p);
    if !is_wildcard_path(p) {
        assert(!v2.exact.contains_key(p));
        assert(v2.wild == v.wild);
    }
}

/// Idempotent overwrite: registering the same path twice leaves exactly the
/// state that registering only the latest value would have left.
pub proof fn lemma_overwrite<T>(v: TrieView<T>, p: Seq<char>, first: T, second: T)
    ensures
        spec_insert(spec_insert(v, p, first), p, second) == spec_insert(v, p, second),
{
    if is_wildcard_path(p) {
        assert(spec_insert(spec_insert(v, p, first), p, second).wild =~= spec_insert(
            v,
            p,
            second,
        ).wild);
    } else {
        assert(spec_insert(spec_insert(v, p, first), p, second).exact =~= spec_insert(
            v,
            p,
            second,
        ).exact);
    }
}

} // verus!
