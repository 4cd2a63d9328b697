//! A compressed prefix tree (radix trie) mapping string paths to values,
//! built for URL-style routing: lookup cost is bounded by the length of the
//! path, not by the number of registered routes, and a route registered with
//! a trailing `/*` matches every path that extends its base.
use vstd::prelude::*;

pub mod laws;
mod node;
mod prettyprint;

use node::RadixNode;
use node::opt_val;
use vstd::string::StrSliceExecFns;

verus! {

/// The abstract contents of a trie: one partial map of exact routes and one
/// of wildcard routes, each keyed by the route's clean (marker-free) path.
pub ghost struct TrieView<T> {
    pub exact: Map<Seq<char>, T>,
    pub wild: Map<Seq<char>, T>,
}

/// Whether a raw path denotes a wildcard route, i.e. ends with `/*`.
pub open spec fn is_wildcard_path(p: Seq<char>) -> bool {
    p.len() >= 2 && p[p.len() - 2] == '/' && p[p.len() - 1] == '*'
}

/// The clean path of a raw path: the raw path with a trailing `/*` removed.
pub open spec fn clean_path(p: Seq<char>) -> Seq<char> {
    if is_wildcard_path(p) {
        p.take(p.len() - 2)
    } else {
        p
    }
}

/// The best wildcard route for `p` among registered bases of length at most
/// `k`: the value at the longest base in `w` that is a prefix of `p`.
pub open spec fn wild_lookup<T>(w: Map<Seq<char>, T>, p: Seq<char>, k: int) -> Option<T>
    decreases k + 1,
{
    if k < 0 {
        None
    } else if w.contains_key(p.take(k)) {
        Some(w[p.take(k)])
    } else {
        wild_lookup(w, p, k - 1)
    }
}

/// The routing answer for a path: the exact route registered at the path
/// itself if there is one, otherwise the wildcard route with the longest
/// base that is a prefix of the path, otherwise nothing.
pub open spec fn lookup<T>(v: TrieView<T>, p: Seq<char>) -> Option<T> {
    if v.exact.contains_key(p) {
        Some(v.exact[p])
    } else {
        wild_lookup(v.wild, p, p.len() as int)
    }
}

/// What an insertion does to the trie's contents: the raw path's clean form
/// is bound to the value in the map its wildcard marker selects.
pub open spec fn spec_insert<T>(v: TrieView<T>, p: Seq<char>, value: T) -> TrieView<T> {
    if is_wildcard_path(p) {
        TrieView { exact: v.exact, wild: v.wild.insert(clean_path(p), value) }
    } else {
        TrieView { exact: v.exact.insert(p, value), wild: v.wild }
    }
}

/// What a removal does to the trie's contents: the raw path's clean form is
/// unbound in the map its wildcard marker selects.
pub open spec fn spec_remove<T>(v: TrieView<T>, p: Seq<char>) -> TrieView<T> {
    if is_wildcard_path(p) {
        TrieView { exact: v.exact, wild: v.wild.remove(clean_path(p)) }
    } else {
        TrieView { exact: v.exact.remove(p), wild: v.wild }
    }
}

/// What a removal returns: the value the raw path's clean form was bound to
/// in the map its wildcard marker selects, if any.
pub open spec fn spec_removed<T>(v: TrieView<T>, p: Seq<char>) -> Option<T> {
    let c = clean_path(p);
    if is_wildcard_path(p) {
        if v.wild.contains_key(c) {
            Some(v.wild[c])
        } else {
            None
        }
    } else {
        if v.exact.contains_key(c) {
            Some(v.exact[c])
        } else {
            None
        }
    }
}

/// Collects the characters of a path string into a vector.
fn chars_vec(path: &str) -> (r: Vec<char>)
    ensures
        r@ == path@,
{
    let n = path.unicode_len();
    let mut r: Vec<char> = Vec::new();
    let mut i: usize = 0;
    while i < n
        invariant
            n == path@.len(),
            i <= n,
            r@ == path@.take(i as int),
        decreases n - i,
    {
        r.push(path.get_char(i));
        proof {
            assert(path@.take(i + 1 as int) =~= path@.take(i as int).push(path@[i as int]));
        }
        i = i + 1;
    }
    proof {
        assert(path@.take(n as int) =~= path@);
    }
    r
}

/// A radix trie for efficient path-based routing with wildcard support.
pub struct Trie<T>(RadixNode<T>);

impl<T> Trie<T> {
    /// Internal invariant: the root prefix is empty and the node tree is
    /// well-formed.
    pub closed spec fn wf(self) -> bool {
        self.0.wf() && self.0.prefix@.len() == 0
    }

    /// The routes of one kind (exact or wildcard) as a partial map.
    pub closed spec fn route_map(self, is_wildcard: bool) -> Map<Seq<char>, T> {
        Map::new(
            |k: Seq<char>| self.0.stored_at(k, is_wildcard) is Some,
            |k: Seq<char>| self.0.stored_at(k, is_wildcard)->Some_0,
        )
    }

    /// Creates a new empty trie.
    pub fn new() -> (t: Self)
        ensures
            t.wf(),
            t.spec_is_empty(),
            t@.exact == Map::<Seq<char>, T>::empty(),
            t@.wild == Map::<Seq<char>, T>::empty(),
    {
        let t = Trie(RadixNode::new(Vec::new()));
        proof {
            assert(t@.exact =~= Map::<Seq<char>, T>::empty());
            assert(t@.wild =~= Map::<Seq<char>, T>::empty());
        }
        t
    }

    /// What the trie's invariant says of its parts: the node tree is
    /// well-formed and the root prefix is empty.
    pub(crate) proof fn lemma_wf_parts(self)
        requires
            self.wf(),
        ensures
            self.0.wf(),
            self.0.prefix@.len() == 0,
    {
    }

    /// Structural emptiness: no value stored at the root and no child at
    /// all.  After removals this is stricter than having empty contents,
    /// since interior nodes left empty are not pruned.
    pub closed spec fn spec_is_empty(self) -> bool {
        self.0.children@.len() == 0 && self.0.exact_value is None && self.0.wildcard_value is None
    }

    /// The wildcard search over the view agrees with the wildcard search
    /// over the node tree.
    proof fn lemma_wild_bridge(self, p: Seq<char>, k: int)
        ensures
            self.0.wild_best_at(p, k) == wild_lookup(self.route_map(true), p, k),
        decreases k + 1,
    {
        if k >= 0 {
            self.lemma_wild_bridge(p, k - 1);
        }
    }

    /// The routing answer over the view agrees with the routing answer over
    /// the node tree.
    proof fn lemma_lookup_bridge(self, p: Seq<char>)
        ensures
            self.0.subtree_lookup(p) == lookup(self@, p),
    {
        self.lemma_wild_bridge(p, p.len() as int);
    }

    /// A pointwise change of the stored routes at one key changes the route
    /// maps by exactly that binding.
    proof fn lemma_route_maps_after_update(
        t1: Self,
        t2: Self,
        key: Seq<char>,
        newval: Option<T>,
        w0: bool,
    )
        requires
            forall|k: Seq<char>, w: bool|
                t2.0.stored_at(k, w) == (if w == w0 && k == key {
                    newval
                } else {
                    t1.0.stored_at(k, w)
                }),
        ensures
            t2.route_map(!w0) == t1.route_map(!w0),
            t2.route_map(w0) == (match newval {
                Some(v) => t1.route_map(w0).insert(key, v),
                None => t1.route_map(w0).remove(key),
            }),
    {
        assert(t2.route_map(!w0) =~= t1.route_map(!w0));
        match newval {
            Some(v) => {
                assert(t2.route_map(w0) =~= t1.route_map(w0).insert(key, v));
            },
            None => {
                assert(t2.route_map(w0) =~= t1.route_map(w0).remove(key));
            },
        }
    }

    /// Parses a path: a trailing `/*` marks a wildcard route and is stripped
    /// from the clean path; anywhere else the two characters are ordinary.
    fn parse_path(path: Vec<char>) -> (r: (Vec<char>, bool))
        ensures
            r.1 == is_wildcard_path(path@),
            r.0@ == clean_path(path@),
    {
        let n = path.len();
        if n >= 2 && path[n - 2] == '/' && path[n - 1] == '*' {
            let mut p = path;
            p.truncate(n - 2);
            (p, true)
        } else {
            (path, false)
        }
    }

    /// Inserts a value at the given path.
    ///
    /// A path ending with `/*` registers a wildcard route for the path
    /// before the marker; any other path registers an exact route.  The
    /// latest insertion for a given clean path and kind wins.
    pub fn insert(&mut self, path: &str, value: T)
        requires
            old(self).wf(),
        ensures
            final(self).wf(),
            final(self)@ == spec_insert(old(self)@, path@, value),
    {
        let p = chars_vec(path);
        let (clean, is_wildcard) = Self::parse_path(p);
        let ghost key = clean@;
        if clean.len() == 0 {
            self.0.store_value(value, is_wildcard);
            proof {
                let n1 = old(self).0;
                let n2 = self.0;
                assert forall|k: Seq<char>, w: bool|
                    n2.stored_at(k, w) == (if w == is_wildcard && k == key {
                        Some(value)
                    } else {
                        n1.stored_at(k, w)
                    }) by {
                    if k.len() == 0 {
                        assert(k =~= key);
                        assert(k.take(0) =~= n1.prefix@);
                    }
                }
            }
        } else {
            self.0.insert_in_child(&clean, 0, value, is_wildcard);
            proof {
                assert(old(self).0.prefix@ + clean@.skip(0) =~= key);
            }
        }
        proof {
            Self::lemma_route_maps_after_update(*old(self), *self, key, Some(value), is_wildcard);
            if is_wildcard {
                assert(self@.wild =~= old(self)@.wild.insert(key, value));
                assert(self@.exact =~= old(self)@.exact);
            } else {
                assert(self@.exact =~= old(self)@.exact.insert(key, value));
                assert(self@.wild =~= old(self)@.wild);
            }
        }
    }

    /// Retrieves the best match for the given path: the exact route at the
    /// path itself beats any wildcard route, and among wildcard routes the
    /// one with the longest base wins.
    pub fn get<'a>(&'a self, path: &str) -> (r: Option<&'a T>)
        requires
            self.wf(),
        ensures
            opt_val(r) == lookup(self@, path@),
    {
        let p = chars_vec(path);
        let r = self.0.get(&p);
        proof {
            self.lemma_lookup_bridge(path@);
        }
        r
    }

    /// Removes and returns the value registered at exactly the given path,
    /// respecting the trailing `/*` convention; an absent route is an
    /// ordinary miss and changes nothing.
    pub fn remove(&mut self, path: &str) -> (r: Option<T>)
        requires
            old(self).wf(),
        ensures
            final(self).wf(),
            final(self)@ == spec_remove(old(self)@, path@),
            r == spec_removed(old(self)@, path@),
    {
        let p = chars_vec(path);
        let (clean, is_wildcard) = Self::parse_path(p);
        let ghost key = clean@;
        let r;
        if clean.len() == 0 {
            r = self.0.take_value(is_wildcard);
            proof {
                let n1 = old(self).0;
                let n2 = self.0;
                assert(key.take(0) =~= n1.prefix@);
                assert forall|k: Seq<char>, w: bool|
                    n2.stored_at(k, w) == (if w == is_wildcard && k == key {
                        None
                    } else {
                        n1.stored_at(k, w)
                    }) by {
                    if k.len() == 0 {
                        assert(k =~= key);
                        assert(k.take(0) =~= n1.prefix@);
                    }
                }
                assert(n1.stored_at(key, is_wildcard) == n1.slot(is_wildcard));
            }
        } else {
            r = self.0.remove_from_child(&clean, 0, is_wildcard);
            proof {
                assert(old(self).0.prefix@ + clean@.skip(0) =~= key);
            }
        }
        proof {
            Self::lemma_route_maps_after_update(*old(self), *self, key, None, is_wildcard);
            if is_wildcard {
                assert(self@.wild =~= old(self)@.wild.remove(key));
                assert(self@.exact =~= old(self)@.exact);
            } else {
                assert(self@.exact =~= old(self)@.exact.remove(key));
                assert(self@.wild =~= old(self)@.wild);
            }
        }
        r
    }

    /// Checks whether the trie is structurally empty: no stored value and no
    /// child node at all.  A structurally empty trie has empty contents.
    pub fn is_empty(&self) -> (r: bool)
        ensures
            r == self.spec_is_empty(),
            r ==> self@.exact == Map::<Seq<char>, T>::empty() && self@.wild == Map::<
                Seq<char>,
                T,
            >::empty(),
    {
        let r = self.0.children.is_empty() && self.0.exact_value.is_none()
            && self.0.wildcard_value.is_none();
        proof {
            if r {
                assert(self@.exact =~= Map::<Seq<char>, T>::empty());
                assert(self@.wild =~= Map::<Seq<char>, T>::empty());
            }
        }
        r
    }
}

impl<T> Default for Trie<T> {
    /// The default trie is the new empty trie.
    fn default() -> (t: Self)
        ensures
            t.wf(),
            t.spec_is_empty(),
            t@.exact == Map::<Seq<char>, T>::empty(),
            t@.wild == Map::<Seq<char>, T>::empty(),
    {
        Trie::new()
    }
}

impl<T> View for Trie<T> {
    type V = TrieView<T>;

    closed spec fn view(&self) -> TrieView<T> {
        TrieView { exact: self.route_map(false), wild: self.route_map(true) }
    }
}

} // verus!
