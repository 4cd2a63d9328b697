//! The compressed prefix-tree node: each node stores a multi-character
//! prefix, child nodes indexed by the first character of their prefix, and
//! up to two values (one for an exact match, one for a wildcard route).
use vstd::prelude::*;

verus! {

/// A node in the radix trie that stores a compressed path prefix.
pub struct RadixNode<T> {
    /// The path fragment this node represents.
    pub(crate) prefix: Vec<char>,
    /// Child nodes; among siblings the first characters of the prefixes are
    /// pairwise distinct, so at most one child can match a given character.
    pub(crate) children: Vec<RadixNode<T>>,
    /// Value bound to the path that reaches this node exactly.
    pub(crate) exact_value: Option<T>,
    /// Value bound to this path as a wildcard route.
    pub(crate) wildcard_value: Option<T>,
}

/// The first of two optional values that is present, if either is.
pub open spec fn or_opt<T>(a: Option<T>, b: Option<T>) -> Option<T> {
    if a is Some {
        a
    } else {
        b
    }
}

/// The value an optional reference points at.
pub open spec fn opt_val<T>(o: Option<&T>) -> Option<T> {
    match o {
        Some(x) => Some(*x),
        None => None,
    }
}

impl<T> RadixNode<T> {
    /// The value slot selected by the wildcard flag.
    pub(crate) open spec fn slot(self, is_wildcard: bool) -> Option<T> {
        if is_wildcard {
            self.wildcard_value
        } else {
            self.exact_value
        }
    }

    /// Index of the first child whose prefix starts with `c`, or -1 if none.
    pub(crate) open spec fn find_child(cs: Seq<RadixNode<T>>, c: char) -> int
        decreases cs.len(),
    {
        if cs.len() == 0 {
            -1
        } else if cs[0].prefix@.len() > 0 && cs[0].prefix@[0] == c {
            0
        } else {
            let r = Self::find_child(cs.skip(1), c);
            if r < 0 {
                -1
            } else {
                r + 1
            }
        }
    }

    /// Well-formedness: every child has a nonempty prefix, children are
    /// indexed by pairwise-distinct first characters, and subtrees are
    /// well-formed in turn.
    pub(crate) open spec fn wf(self) -> bool
        decreases self,
    {
        &&& (forall|i: int|
            0 <= i < self.children@.len() ==> (#[trigger] self.children@[i]).prefix@.len() > 0)
        &&& (forall|i: int|
            0 <= i < self.children@.len() ==> (#[trigger] self.children@[i]).wf())
        &&& (forall|i: int, j: int|
            0 <= i < j < self.children@.len() ==> self.children@[i].prefix@[0]
                != self.children@[j].prefix@[0])
    }

    /// The value stored for `path` (a path relative to this node's parent, so
    /// it includes this node's own prefix) in the given slot, if any.
    pub(crate) open spec fn stored_at(self, path: Seq<char>, is_wildcard: bool) -> Option<T>
        decreases self,
    {
        if path.len() < self.prefix@.len() || path.take(self.prefix@.len() as int)
            != self.prefix@ {
            None
        } else if path.len() == self.prefix@.len() {
            self.slot(is_wildcard)
        } else {
            let rest = path.skip(self.prefix@.len() as int);
            let i = Self::find_child(self.children@, rest[0]);
            if 0 <= i < self.children@.len() {
                self.children@[i].stored_at(rest, is_wildcard)
            } else {
                None
            }
        }
    }

    /// The best wildcard route covering `p` within this subtree among route
    /// bases of length at most `k`: the longest registered wildcard base
    /// that is a prefix of `p`.
    pub(crate) open spec fn wild_best_at(self, p: Seq<char>, k: int) -> Option<T>
        decreases k + 1,
    {
        if k < 0 {
            None
        } else if self.stored_at(p.take(k), true) is Some {
            self.stored_at(p.take(k), true)
        } else {
            self.wild_best_at(p, k - 1)
        }
    }

    /// The routing answer for `p` within this subtree: the exact route at
    /// `p` itself if one is registered, otherwise the registered wildcard
    /// route with the longest base that is a prefix of `p`.
    pub(crate) open spec fn subtree_lookup(self, p: Seq<char>) -> Option<T> {
        if self.stored_at(p, false) is Some {
            self.stored_at(p, false)
        } else {
            self.wild_best_at(p, p.len() as int)
        }
    }

    /// Without any wildcard route whose base is a prefix of `p` of length at
    /// most `k`, there is no wildcard answer.
    pub(crate) proof fn lemma_wild_best_none(self, p: Seq<char>, k: int)
        requires
            forall|j: int| 0 <= j <= k ==> self.stored_at(#[trigger] p.take(j), true) is None,
        ensures
            self.wild_best_at(p, k) is None,
        decreases k + 1,
    {
        if k >= 0 {
            self.lemma_wild_best_none(p, k - 1);
        }
    }

    /// A path that does not run through this node's whole prefix has no
    /// exact and no wildcard answer in this subtree.
    pub(crate) proof fn lemma_subtree_lookup_miss(self, p: Seq<char>)
        requires
            p.len() < self.prefix@.len() || p.take(self.prefix@.len() as int) != self.prefix@,
        ensures
            self.subtree_lookup(p) is None,
    {
        let plen = self.prefix@.len() as int;
        assert forall|j: int| 0 <= j <= p.len() implies self.stored_at(
            #[trigger] p.take(j),
            true,
        ) is None by {
            if j >= plen {
                assert(p.take(j).take(plen) =~= p.take(plen));
            }
        }
        self.lemma_wild_best_none(p, p.len() as int);
    }

    /// At the node whose accumulated key is `p` itself, the answer is the
    /// exact value, else the node's own wildcard value.
    pub(crate) proof fn lemma_subtree_lookup_here(self, p: Seq<char>)
        requires
            p == self.prefix@,
        ensures
            self.subtree_lookup(p) == or_opt(self.slot(false), self.slot(true)),
    {
        let plen = self.prefix@.len() as int;
        assert(p.take(plen) =~= p);
        assert forall|j: int| 0 <= j <= plen - 1 implies self.stored_at(
            #[trigger] p.take(j),
            true,
        ) is None by {}
        self.lemma_wild_best_none(p, plen - 1);
    }

    /// One step of the wildcard search: past this node's own base, every
    /// deeper candidate base routes into the single child selected by the
    /// next character of `p`.
    pub(crate) proof fn lemma_wild_best_descend(self, p: Seq<char>, k: int)
        requires
            self.wf(),
            p.len() > self.prefix@.len(),
            p.take(self.prefix@.len() as int) == self.prefix@,
            self.prefix@.len() <= k <= p.len(),
        ensures
            ({
                let plen = self.prefix@.len() as int;
                let rest = p.skip(plen);
                let i = Self::find_child(self.children@, rest[0]);
                self.wild_best_at(p, k) == or_opt(
                    if 0 <= i < self.children@.len() {
                        self.children@[i].wild_best_at(rest, k - plen)
                    } else {
                        None
                    },
                    self.slot(true),
                )
            }),
        decreases k,
    {
        let plen = self.prefix@.len() as int;
        let rest = p.skip(plen);
        let i = Self::find_child(self.children@, rest[0]);
        Self::lemma_find_child_props(self.children@, rest[0]);
        if k == plen {
            assert(p.take(plen) == self.prefix@);
            assert(p.take(plen).take(plen) =~= p.take(plen));
            assert(self.stored_at(p.take(plen), true) == self.slot(true));
            assert forall|j: int| 0 <= j <= plen - 1 implies self.stored_at(
                #[trigger] p.take(j),
                true,
            ) is None by {}
            self.lemma_wild_best_none(p, plen - 1);
            if 0 <= i < self.children@.len() {
                let child = self.children@[i];
                assert forall|j: int| 0 <= j <= 0 implies child.stored_at(
                    #[trigger] rest.take(j),
                    true,
                ) is None by {
                    assert(child.prefix@.len() > 0);
                }
                child.lemma_wild_best_none(rest, 0);
            }
        } else {
            self.lemma_wild_best_descend(p, k - 1);
            let q = p.take(k);
            assert(q.take(plen) =~= p.take(plen));
            assert(q.skip(plen) =~= rest.take(k - plen));
            assert(q.skip(plen)[0] == rest[0]);
            if 0 <= i < self.children@.len() {
                let child = self.children@[i];
                assert(self.stored_at(q, true) == child.stored_at(rest.take(k - plen), true));
            } else {
                assert(self.stored_at(q, true) is None);
            }
        }
    }

    /// One step of the routing answer: at a node whose prefix is a proper
    /// prefix of `p`, the answer is the answer of the selected child, else
    /// this node's own wildcard value.
    pub(crate) proof fn lemma_subtree_lookup_descend(self, p: Seq<char>)
        requires
            self.wf(),
            p.len() > self.prefix@.len(),
            p.take(self.prefix@.len() as int) == self.prefix@,
        ensures
            ({
                let plen = self.prefix@.len() as int;
                let rest = p.skip(plen);
                let i = Self::find_child(self.children@, rest[0]);
                self.subtree_lookup(p) == or_opt(
                    if 0 <= i < self.children@.len() {
                        self.children@[i].subtree_lookup(rest)
                    } else {
                        None
                    },
                    self.slot(true),
                )
            }),
    {
        let plen = self.prefix@.len() as int;
        let rest = p.skip(plen);
        let i = Self::find_child(self.children@, rest[0]);
        self.lemma_wild_best_descend(p, p.len() as int);
        if 0 <= i < self.children@.len() {
            let child = self.children@[i];
            assert(self.stored_at(p, false) == child.stored_at(rest, false));
            assert(rest.take(rest.len() as int) =~= rest);
        } else {
            assert(self.stored_at(p, false) is None);
        }
    }

    /// What `find_child` returns: an in-range index of a child whose prefix
    /// starts with `c`, or -1 exactly when no child's prefix does.
    pub(crate) proof fn lemma_find_child_props(cs: Seq<RadixNode<T>>, c: char)
        ensures
            -1 <= Self::find_child(cs, c) < cs.len(),
            Self::find_child(cs, c) >= 0 ==> {
                let r = Self::find_child(cs, c);
                cs[r].prefix@.len() > 0 && cs[r].prefix@[0] == c
            },
            Self::find_child(cs, c) < 0 ==> forall|i: int|
                0 <= i < cs.len() ==> !((#[trigger] cs[i]).prefix@.len() > 0 && cs[i].prefix@[0]
                    == c),
        decreases cs.len(),
    {
        if cs.len() == 0 {
        } else if cs[0].prefix@.len() > 0 && cs[0].prefix@[0] == c {
        } else {
            Self::lemma_find_child_props(cs.skip(1), c);
            assert forall|i: int| 0 <= i < cs.len() && Self::find_child(cs, c) < 0 implies !((
            #[trigger] cs[i]).prefix@.len() > 0 && cs[i].prefix@[0] == c) by {
                if i > 0 {
                    assert(cs.skip(1)[i - 1] == cs[i]);
                }
            }
        }
    }

    /// Under pairwise-distinct first characters, any matching child index is
    /// the one `find_child` returns.
    pub(crate) proof fn lemma_find_child_unique(cs: Seq<RadixNode<T>>, c: char, i: int)
        requires
            forall|k: int|
                0 <= k < cs.len() ==> (#[trigger] cs[k]).prefix@.len() > 0,
            forall|k: int, l: int|
                0 <= k < l < cs.len() ==> cs[k].prefix@[0] != cs[l].prefix@[0],
            0 <= i < cs.len(),
            cs[i].prefix@[0] == c,
        ensures
            Self::find_child(cs, c) == i,
    {
        Self::lemma_find_child_props(cs, c);
        let r = Self::find_child(cs, c);
        if r < 0 {
            assert(!(cs[i].prefix@.len() > 0 && cs[i].prefix@[0] == c));
        } else if r != i {
            if r < i {
                assert(cs[r].prefix@[0] != cs[i].prefix@[0]);
            } else {
                assert(cs[i].prefix@[0] != cs[r].prefix@[0]);
            }
        }
    }

    /// Replacing the child at `i` by one whose routes differ in exactly one
    /// route changes this node's routes in exactly that route.
    proof fn lemma_update_child_frame(
        n1: Self,
        n2: Self,
        i: int,
        rest: Seq<char>,
        newval: Option<T>,
        w0: bool,
    )
        requires
            n1.wf(),
            n2.wf(),
            0 <= i < n1.children@.len(),
            rest.len() > 0,
            n1.children@[i].prefix@.len() > 0,
            n1.children@[i].prefix@[0] == rest[0],
            Self::find_child(n1.children@, rest[0]) == i,
            n2.children@ == n1.children@.update(i, n2.children@[i]),
            n2.prefix@ == n1.prefix@,
            n2.exact_value == n1.exact_value,
            n2.wildcard_value == n1.wildcard_value,
            n2.children@[i].prefix@.len() > 0,
            n2.children@[i].prefix@[0] == n1.children@[i].prefix@[0],
            forall|k: Seq<char>, w: bool|
                n2.children@[i].stored_at(k, w) == (if w == w0 && k == rest {
                    newval
                } else {
                    n1.children@[i].stored_at(k, w)
                }),
        ensures
            forall|k: Seq<char>, w: bool|
                n2.stored_at(k, w) == (if w == w0 && k == n1.prefix@ + rest {
                    newval
                } else {
                    n1.stored_at(k, w)
                }),
    {
        let key = n1.prefix@ + rest;
        let plen = n1.prefix@.len() as int;
        assert(key.take(plen) =~= n1.prefix@);
        assert(key.skip(plen) =~= rest);
        assert forall|k: Seq<char>, w: bool|
            n2.stored_at(k, w) == (if w == w0 && k == key {
                newval
            } else {
                n1.stored_at(k, w)
            }) by {
            if k.len() < plen || k.take(plen) != n1.prefix@ {
                assert(n2.stored_at(k, w) is None);
                assert(n1.stored_at(k, w) is None);
                assert(k != key);
            } else if k.len() == plen {
                assert(k != key);
            } else {
                let rk = k.skip(plen);
                assert(k =~= k.take(plen) + k.skip(plen));
                if rk[0] == rest[0] {
                    Self::lemma_find_child_unique(n2.children@, rest[0], i);
                    assert(n2.stored_at(k, w) == n2.children@[i].stored_at(rk, w));
                    assert(n1.stored_at(k, w) == n1.children@[i].stored_at(rk, w));
                    if k == key {
                        assert(rk =~= rest);
                    }
                    if rk == rest {
                        assert(k =~= key);
                    }
                } else {
                    assert(k != key);
                    Self::lemma_find_child_props(n1.children@, rk[0]);
                    Self::lemma_find_child_props(n2.children@, rk[0]);
                    let r1 = Self::find_child(n1.children@, rk[0]);
                    let r2 = Self::find_child(n2.children@, rk[0]);
                    if r1 >= 0 {
                        assert(r1 != i);
                        assert(n2.children@[r1] == n1.children@[r1]);
                        Self::lemma_find_child_unique(n2.children@, rk[0], r1);
                        assert(n2.stored_at(k, w) == n1.stored_at(k, w));
                    } else {
                        if r2 >= 0 {
                            assert(n2.children@[r2].prefix@[0] == rk[0]);
                            if r2 != i {
                                assert(n2.children@[r2] == n1.children@[r2]);
                                assert(false);
                            }
                        }
                        assert(n2.stored_at(k, w) is None);
                        assert(n1.stored_at(k, w) is None);
                    }
                }
            }
        }
    }

    /// Adding a fresh leaf child that stores one route changes this node's
    /// routes by exactly that route.
    proof fn lemma_insert_new_child_frame(n1: Self, n2: Self, rest: Seq<char>, value: T, w0: bool)
        requires
            n1.wf(),
            n2.wf(),
            rest.len() > 0,
            Self::find_child(n1.children@, rest[0]) < 0,
            n2.children@ == n1.children@.push(n2.children@[n1.children@.len() as int]),
            n2.prefix@ == n1.prefix@,
            n2.exact_value == n1.exact_value,
            n2.wildcard_value == n1.wildcard_value,
            ({
                let nc = n2.children@[n1.children@.len() as int];
                nc.prefix@ == rest && nc.children@.len() == 0 && nc.slot(w0) == Some(value)
                    && nc.slot(!w0) is None
            }),
        ensures
            forall|k: Seq<char>, w: bool|
                n2.stored_at(k, w) == (if w == w0 && k == n1.prefix@ + rest {
                    Some(value)
                } else {
                    n1.stored_at(k, w)
                }),
    {
        let key = n1.prefix@ + rest;
        let plen = n1.prefix@.len() as int;
        let last = n1.children@.len() as int;
        let nc = n2.children@[last];
        assert(key.take(plen) =~= n1.prefix@);
        assert(key.skip(plen) =~= rest);
        assert(rest.take(rest.len() as int) =~= rest);
        assert forall|k: Seq<char>, w: bool|
            n2.stored_at(k, w) == (if w == w0 && k == key {
                Some(value)
            } else {
                n1.stored_at(k, w)
            }) by {
            if k.len() < plen || k.take(plen) != n1.prefix@ {
                assert(n2.stored_at(k, w) is None);
                assert(n1.stored_at(k, w) is None);
                assert(k != key);
            } else if k.len() == plen {
                assert(k != key);
            } else {
                let rk = k.skip(plen);
                assert(k =~= k.take(plen) + k.skip(plen));
                Self::lemma_find_child_props(n1.children@, rk[0]);
                if rk[0] == rest[0] {
                    assert(n1.stored_at(k, w) is None);
                    Self::lemma_find_child_unique(n2.children@, rest[0], last);
                    assert(n2.stored_at(k, w) == nc.stored_at(rk, w));
                    if rk.len() < rest.len() || rk.take(rest.len() as int) != rest {
                        assert(nc.stored_at(rk, w) is None);
                        if k == key {
                            assert(rk =~= rest);
                            assert(false);
                        }
                    } else if rk.len() == rest.len() {
                        assert(rk =~= rest);
                        assert(k =~= key);
                        assert(nc.stored_at(rk, w) == nc.slot(w));
                    } else {
                        assert(Self::find_child(nc.children@, rk.skip(rest.len() as int)[0])
                            == -1);
                        assert(nc.stored_at(rk, w) is None);
                        assert(k != key);
                    }
                } else {
                    assert(k != key);
                    Self::lemma_find_child_props(n2.children@, rk[0]);
                    let r1 = Self::find_child(n1.children@, rk[0]);
                    let r2 = Self::find_child(n2.children@, rk[0]);
                    if r1 >= 0 {
                        assert(n2.children@[r1] == n1.children@[r1]);
                        Self::lemma_find_child_unique(n2.children@, rk[0], r1);
                        assert(n2.stored_at(k, w) == n1.stored_at(k, w));
                    } else {
                        if r2 >= 0 {
                            assert(n2.children@[r2].prefix@[0] == rk[0]);
                            if r2 != last {
                                assert(n2.children@[r2] == n1.children@[r2]);
                                assert(false);
                            } else {
                                assert(false);
                            }
                        }
                        assert(n2.stored_at(k, w) is None);
                        assert(n1.stored_at(k, w) is None);
                    }
                }
            }
        }
    }

    /// Creates a new node with the given prefix and nothing stored.
    pub(crate) fn new(prefix: Vec<char>) -> (n: Self)
        ensures
            n.prefix@ == prefix@,
            n.children@.len() == 0,
            n.exact_value is None,
            n.wildcard_value is None,
            n.wf(),
    {
        let n = RadixNode { prefix, children: Vec::new(), exact_value: None, wildcard_value: None };
        n
    }

    /// Counts how many leading characters of this node's prefix agree with
    /// `path` read from position `from`.
    pub(crate) fn count_common_prefix_chars(&self, path: &Vec<char>, from: usize) -> (r: usize)
        requires
            from <= path@.len(),
        ensures
            r <= self.prefix@.len(),
            from + r <= path@.len(),
            forall|j: int| 0 <= j < r ==> self.prefix@[j] == path@[from + j],
            r < self.prefix@.len() && from + r < path@.len() ==> self.prefix@[r as int] != path@[from
                + r],
    {
        let n = path.len();
        let mut i: usize = 0;
        while i < self.prefix.len() && from + i < n && self.prefix[i] == path[from + i]
            invariant
                n == path@.len(),
                i <= self.prefix@.len(),
                from + i <= n,
                forall|j: int| 0 <= j < i ==> self.prefix@[j] == path@[from + j],
            decreases self.prefix@.len() - i,
        {
            i = i + 1;
        }
        i
    }

    /// Finds the position of the child whose prefix starts with `c`, if any.
    pub(crate) fn child_position(&self, c: char) -> (r: Option<usize>)
        requires
            self.wf(),
        ensures
            match r {
                Some(i) => i < self.children@.len() && Self::find_child(self.children@, c)
                    == i as int,
                None => Self::find_child(self.children@, c) < 0,
            },
    {
        let n = self.children.len();
        let mut i: usize = 0;
        while i < n
            invariant
                self.wf(),
                n == self.children@.len(),
                i <= n,
                forall|j: int| 0 <= j < i ==> (#[trigger] self.children@[j]).prefix@[0] != c,
            decreases n - i,
        {
            proof {
                assert(self.children@[i as int].prefix@.len() > 0);
            }
            if self.children[i].prefix[0] == c {
                proof {
                    Self::lemma_find_child_unique(self.children@, c, i as int);
                }
                return Some(i);
            }
            i = i + 1;
        }
        proof {
            Self::lemma_find_child_props(self.children@, c);
            let r = Self::find_child(self.children@, c);
            if r >= 0 {
                assert(self.children@[r].prefix@[0] != c);
                assert(false);
            }
        }
        None
    }

    /// Splits this node at the given position: the node keeps the first
    /// `position` characters of its prefix, and a brand-new single child
    /// inherits the remainder of the prefix together with the node's entire
    /// child map and both stored values.  No route is added or lost.
    pub(crate) fn split_at(&mut self, position: usize)
        requires
            old(self).wf(),
            1 <= position < old(self).prefix@.len(),
        ensures
            final(self).wf(),
            final(self).prefix@ == old(self).prefix@.take(position as int),
            final(self).exact_value is None,
            final(self).wildcard_value is None,
            forall|k: Seq<char>, w: bool|
                final(self).stored_at(k, w) == old(self).stored_at(k, w),
    {
        let suffix = self.prefix.split_off(position);
        let mut moved_children: Vec<RadixNode<T>> = Vec::new();
        core::mem::swap(&mut moved_children, &mut self.children);
        let new_child = RadixNode {
            prefix: suffix,
            children: moved_children,
            exact_value: self.exact_value.take(),
            wildcard_value: self.wildcard_value.take(),
        };
        self.children.push(new_child);
        proof {
            let n1 = *old(self);
            let n2 = *self;
            let p = n1.prefix@;
            let plen = p.len() as int;
            let pos = position as int;
            let p1 = p.take(pos);
            let p2 = p.skip(pos);
            let c = n2.children@[0];
            assert(n2.prefix@ =~= p1);
            assert(c.prefix@ =~= p2);
            assert(c.children@ == n1.children@);
            assert(n2.wf()) by {
                assert forall|i: int|
                    0 <= i < c.children@.len() implies (#[trigger] c.children@[i]).prefix@.len()
                    > 0 && c.children@[i].wf() by {
                    assert(c.children@[i] == n1.children@[i]);
                    assert(n1.children@[i].wf());
                }
                assert forall|i: int, j: int|
                    0 <= i < j < c.children@.len() implies c.children@[i].prefix@[0]
                    != c.children@[j].prefix@[0] by {
                    assert(c.children@[i] == n1.children@[i]);
                    assert(c.children@[j] == n1.children@[j]);
                }
                assert(c.wf());
                assert(n2.children@.len() == 1);
                assert(n2.children@[0] == c);
            }
            assert forall|k: Seq<char>, w: bool|
                n2.stored_at(k, w) == n1.stored_at(k, w) by {
                if k.len() >= plen && k.take(plen) == p {
                    // `k` runs through the whole old prefix, hence through both halves.
                    assert(k.take(pos) =~= k.take(plen).take(pos));
                    assert(p.take(pos) == p1);
                }
                if k.len() < pos || k.take(pos) != p1 {
                    assert(n2.stored_at(k, w) is None);
                    assert(n1.stored_at(k, w) is None);
                } else if k.len() == pos {
                    assert(n2.stored_at(k, w) == n2.slot(w));
                    assert(n1.stored_at(k, w) is None);
                } else {
                    let rest1 = k.skip(pos);
                    assert(rest1[0] == k[pos]);
                    assert(p2[0] == p[pos]);
                    if rest1[0] == p2[0] {
                        Self::lemma_find_child_unique(n2.children@, rest1[0], 0);
                        assert(n2.stored_at(k, w) == c.stored_at(rest1, w));
                        if rest1.len() < p2.len() || rest1.take(p2.len() as int) != p2 {
                            assert(c.stored_at(rest1, w) is None);
                            if k.len() >= plen && k.take(plen) == p {
                                assert(rest1.take(p2.len() as int) =~= p2);
                            }
                            assert(n1.stored_at(k, w) is None);
                        } else if rest1.len() == p2.len() {
                            assert(k =~= k.take(pos) + rest1);
                            assert(k.take(plen) =~= p1 + p2);
                            assert(k =~= p1 + p2);
                            assert(p =~= p1 + p2);
                            assert(c.stored_at(rest1, w) == n1.slot(w));
                            assert(n1.stored_at(k, w) == n1.slot(w));
                        } else {
                            assert forall|j: int| 0 <= j < plen implies k.take(plen)[j] == p[j] by {
                                if j < pos {
                                    assert(k.take(pos)[j] == p1[j]);
                                } else {
                                    assert(rest1.take(p2.len() as int)[j - pos] == p2[j - pos]);
                                }
                            }
                            assert(k.take(plen) =~= p);
                            let rest = k.skip(plen);
                            assert(rest =~= rest1.skip(p2.len() as int));
                            assert(c.stored_at(rest1, w) == n1.stored_at(k, w));
                        }
                    } else {
                        Self::lemma_find_child_props(n2.children@, rest1[0]);
                        assert(Self::find_child(n2.children@, rest1[0]) < 0);
                        assert(n2.stored_at(k, w) is None);
                        if k.len() >= plen && k.take(plen) == p {
                            assert(k.take(plen)[pos] == p[pos]);
                            assert(false);
                        }
                        assert(n1.stored_at(k, w) is None);
                    }
                }
            }
        }
    }

    /// Stores a value in the appropriate slot (exact or wildcard).
    pub(crate) fn store_value(&mut self, value: T, is_wildcard: bool)
        ensures
            *final(self) == (if is_wildcard {
                RadixNode { wildcard_value: Some(value), ..*old(self) }
            } else {
                RadixNode { exact_value: Some(value), ..*old(self) }
            }),
    {
        if is_wildcard {
            self.wildcard_value = Some(value);
        } else {
            self.exact_value = Some(value);
        }
    }

    /// Takes the value out of the appropriate slot (exact or wildcard).
    pub(crate) fn take_value(&mut self, is_wildcard: bool) -> (r: Option<T>)
        ensures
            r == old(self).slot(is_wildcard),
            *final(self) == (if is_wildcard {
                RadixNode { wildcard_value: None, ..*old(self) }
            } else {
                RadixNode { exact_value: None, ..*old(self) }
            }),
    {
        if is_wildcard {
            self.wildcard_value.take()
        } else {
            self.exact_value.take()
        }
    }

    /// Inserts a value at the remaining path `path[from..]`, which begins
    /// with the same character as this node's prefix; the route's key
    /// relative to this node's parent is exactly that remaining path.
    pub(crate) fn insert(&mut self, path: &Vec<char>, from: usize, value: T, is_wildcard: bool)
        requires
            old(self).wf(),
            from < path@.len(),
            old(self).prefix@.len() > 0,
            path@[from as int] == old(self).prefix@[0],
        ensures
            final(self).wf(),
            final(self).prefix@.len() > 0,
            final(self).prefix@[0] == old(self).prefix@[0],
            forall|k: Seq<char>, w: bool|
                final(self).stored_at(k, w) == (if w == is_wildcard && k == path@.skip(
                    from as int,
                ) {
                    Some(value)
                } else {
                    old(self).stored_at(k, w)
                }),
        decreases path@.len() - from, 0int,
    {
        let n = path.len();
        let common = self.count_common_prefix_chars(path, from);
        proof {
            if common == 0 {
                assert(self.prefix@[0] != path@[from as int]);
            }
        }
        if common < self.prefix.len() {
            self.split_at(common);
        }
        let ghost mid = *self;
        proof {
            assert(mid.prefix@ =~= old(self).prefix@.take(common as int));
            assert(forall|k: Seq<char>, w: bool|
                mid.stored_at(k, w) == old(self).stored_at(k, w));
            assert(mid.prefix@ =~= path@.subrange(from as int, from + common));
        }
        if from + common < n {
            self.insert_in_child(path, from + common, value, is_wildcard);
            proof {
                assert(mid.prefix@ + path@.skip(from + common) =~= path@.skip(from as int));
            }
        } else {
            proof {
                assert(mid.prefix@ =~= path@.skip(from as int));
            }
            self.store_value(value, is_wildcard);
            proof {
                let key = path@.skip(from as int);
                assert(key == mid.prefix@);
                assert(key.take(key.len() as int) =~= key);
                assert forall|k: Seq<char>, w: bool|
                    self.stored_at(k, w) == (if w == is_wildcard && k == key {
                        Some(value)
                    } else {
                        mid.stored_at(k, w)
                    }) by {
                    if k.len() == mid.prefix@.len() && k.take(mid.prefix@.len() as int)
                        == mid.prefix@ {
                        assert(k =~= mid.prefix@);
                    }
                }
            }
        }
    }

    /// Retrieves the best match for `path` in the whole tree, with
    /// exact-beats-wildcard and deepest-wildcard-beats-shallower precedence.
    pub(crate) fn get<'a>(&'a self, path: &Vec<char>) -> (r: Option<&'a T>)
        requires
            self.wf(),
            self.prefix@.len() == 0,
        ensures
            opt_val(r) == self.subtree_lookup(path@),
    {
        if path.len() == 0 {
            proof {
                assert(path@ =~= self.prefix@);
                self.lemma_subtree_lookup_here(path@);
            }
            match &self.exact_value {
                Some(v) => Some(v),
                None => match &self.wildcard_value {
                    Some(v) => Some(v),
                    None => None,
                },
            }
        } else {
            let fb = match &self.wildcard_value {
                Some(v) => Some(v),
                None => None,
            };
            let r = self.search_in_child(path, 0, fb);
            proof {
                assert(path@.take(0) =~= self.prefix@);
                assert(path@.skip(0) =~= path@);
                self.lemma_subtree_lookup_descend(path@);
            }
            r
        }
    }

    /// Retrieves a value with wildcard fallback support: the answer for the
    /// remaining path within this subtree, or the most specific wildcard
    /// value an ancestor has passed down.
    pub(crate) fn get_with_fallback<'a>(
        &'a self,
        path: &Vec<char>,
        from: usize,
        fallback: Option<&'a T>,
    ) -> (r: Option<&'a T>)
        requires
            self.wf(),
            from < path@.len(),
            self.prefix@.len() > 0,
            path@[from as int] == self.prefix@[0],
        ensures
            opt_val(r) == or_opt(self.subtree_lookup(path@.skip(from as int)), opt_val(fallback)),
        decreases path@.len() - from, 0int,
    {
        let n = path.len();
        let common = self.count_common_prefix_chars(path, from);
        let ghost p = path@.skip(from as int);
        if common < self.prefix.len() {
            proof {
                let plen = self.prefix@.len() as int;
                if p.len() >= plen && p.take(plen) == self.prefix@ {
                    if from + common < path@.len() {
                        assert(p.take(plen)[common as int] == self.prefix@[common as int]);
                        assert(false);
                    }
                }
                self.lemma_subtree_lookup_miss(p);
            }
            return fallback;
        }
        if from + common == n {
            proof {
                assert(p =~= self.prefix@);
                self.lemma_subtree_lookup_here(p);
            }
            match &self.exact_value {
                Some(v) => Some(v),
                None => match &self.wildcard_value {
                    Some(v) => Some(v),
                    None => fallback,
                },
            }
        } else {
            let fb = match &self.wildcard_value {
                Some(v) => Some(v),
                None => fallback,
            };
            let r = self.search_in_child(path, from + common, fb);
            proof {
                assert(p.take(self.prefix@.len() as int) =~= self.prefix@);
                assert(p.skip(self.prefix@.len() as int) =~= path@.skip(from + common));
                self.lemma_subtree_lookup_descend(p);
            }
            r
        }
    }

    /// Searches for the remaining path in the child selected by its first
    /// character; without such a child the inherited fallback stands.
    pub(crate) fn search_in_child<'a>(
        &'a self,
        path: &Vec<char>,
        from: usize,
        fallback: Option<&'a T>,
    ) -> (r: Option<&'a T>)
        requires
            self.wf(),
            from < path@.len(),
        ensures
            opt_val(r) == ({
                let rest = path@.skip(from as int);
                let i = Self::find_child(self.children@, rest[0]);
                or_opt(
                    if 0 <= i < self.children@.len() {
                        self.children@[i].subtree_lookup(rest)
                    } else {
                        None
                    },
                    opt_val(fallback),
                )
            }),
        decreases path@.len() - from, 1int,
    {
        let c = path[from];
        match self.child_position(c) {
            Some(i) => {
                proof {
                    Self::lemma_find_child_props(self.children@, c);
                    assert(self.children@[i as int].wf());
                    assert(self.children@[i as int].prefix@[0] == c);
                }
                let child = &self.children[i];
                child.get_with_fallback(path, from, fallback)
            },
            None => fallback,
        }
    }

    /// Removes and returns the value stored at the remaining path
    /// `path[from..]`, which begins with the same character as this node's
    /// prefix.  A path that is not registered leaves the node unchanged; no
    /// node is pruned or merged.
    pub(crate) fn remove(&mut self, path: &Vec<char>, from: usize, is_wildcard: bool) -> (r: Option<
        T,
    >)
        requires
            old(self).wf(),
            from < path@.len(),
            old(self).prefix@.len() > 0,
            path@[from as int] == old(self).prefix@[0],
        ensures
            final(self).wf(),
            final(self).prefix@ == old(self).prefix@,
            r == old(self).stored_at(path@.skip(from as int), is_wildcard),
            forall|k: Seq<char>, w: bool|
                final(self).stored_at(k, w) == (if w == is_wildcard && k == path@.skip(
                    from as int,
                ) {
                    None
                } else {
                    old(self).stored_at(k, w)
                }),
        decreases path@.len() - from, 0int,
    {
        let n = path.len();
        let common = self.count_common_prefix_chars(path, from);
        let ghost key = path@.skip(from as int);
        if common != self.prefix.len() {
            proof {
                let plen = self.prefix@.len() as int;
                if key.len() >= plen && key.take(plen) == self.prefix@ {
                    if from + common < path@.len() {
                        assert(key.take(plen)[common as int] == self.prefix@[common as int]);
                        assert(false);
                    }
                }
                assert(old(self).stored_at(key, is_wildcard) is None);
            }
            return None;
        }
        if from + common < n {
            let r = self.remove_from_child(path, from + common, is_wildcard);
            proof {
                assert(old(self).prefix@ + path@.skip(from + common) =~= key);
            }
            r
        } else {
            proof {
                assert(self.prefix@ =~= key);
                assert(key.take(key.len() as int) =~= key);
            }
            let r = self.take_value(is_wildcard);
            proof {
                let mid = *old(self);
                assert forall|k: Seq<char>, w: bool|
                    self.stored_at(k, w) == (if w == is_wildcard && k == key {
                        None
                    } else {
                        mid.stored_at(k, w)
                    }) by {
                    if k.len() == mid.prefix@.len() && k.take(mid.prefix@.len() as int)
                        == mid.prefix@ {
                        assert(k =~= mid.prefix@);
                    }
                }
            }
            r
        }
    }

    /// Continues a removal strictly below this node: this node's whole
    /// prefix is already consumed, and the nonempty remainder `path[from..]`
    /// selects the child to remove from; without such a child nothing is
    /// registered there and nothing changes.
    pub(crate) fn remove_from_child(&mut self, path: &Vec<char>, from: usize, is_wildcard: bool) -> (
    r: Option<T>)
        requires
            old(self).wf(),
            from < path@.len(),
        ensures
            final(self).wf(),
            final(self).prefix@ == old(self).prefix@,
            final(self).exact_value == old(self).exact_value,
            final(self).wildcard_value == old(self).wildcard_value,
            r == old(self).stored_at(old(self).prefix@ + path@.skip(from as int), is_wildcard),
            forall|k: Seq<char>, w: bool|
                final(self).stored_at(k, w) == (if w == is_wildcard && k == old(self).prefix@
                    + path@.skip(from as int) {
                    None
                } else {
                    old(self).stored_at(k, w)
                }),
        decreases path@.len() - from, 1int,
    {
        let c = path[from];
        let found = self.child_position(c);
        let ghost n1 = *old(self);
        let ghost rest = path@.skip(from as int);
        let ghost key = n1.prefix@ + rest;
        proof {
            assert(key.take(n1.prefix@.len() as int) =~= n1.prefix@);
            assert(key.skip(n1.prefix@.len() as int) =~= rest);
        }
        match found {
            Some(i) => {
                proof {
                    Self::lemma_find_child_props(n1.children@, c);
                    assert(n1.children@[i as int].wf());
                    assert(n1.children@[i as int].prefix@[0] == c);
                }
                let child = &mut self.children[i];
                let r = child.remove(path, from, is_wildcard);
                proof {
                    let child1 = self.children@[i as int];
                    let n2 = *self;
                    assert(n2.children@ == n1.children@.update(i as int, child1));
                    assert(n2.wf()) by {
                        assert forall|a: int|
                            0 <= a < n2.children@.len() implies (
                        #[trigger] n2.children@[a]).prefix@.len() > 0 && n2.children@[a].wf() by {
                            if a != i as int {
                                assert(n2.children@[a] == n1.children@[a]);
                                assert(n1.children@[a].wf());
                            }
                        }
                        assert forall|a: int, b: int|
                            0 <= a < b < n2.children@.len() implies n2.children@[a].prefix@[0]
                            != n2.children@[b].prefix@[0] by {
                            assert(n1.children@[a].prefix@[0] != n1.children@[b].prefix@[0]);
                            assert(n2.children@[a].prefix@[0] == n1.children@[a].prefix@[0]);
                            assert(n2.children@[b].prefix@[0] == n1.children@[b].prefix@[0]);
                        }
                    }
                    Self::lemma_update_child_frame(n1, n2, i as int, rest, None, is_wildcard);
                    assert(n1.stored_at(key, is_wildcard) == n1.children@[i as int].stored_at(
                        rest,
                        is_wildcard,
                    ));
                }
                r
            },
            None => {
                proof {
                    assert(n1.stored_at(key, is_wildcard) is None);
                }
                None
            },
        }
    }

    /// Continues an insertion strictly below this node: this node's whole
    /// prefix is already consumed, and the nonempty remainder `path[from..]`
    /// selects (or creates) the child to store into.
    pub(crate) fn insert_in_child(
        &mut self,
        path: &Vec<char>,
        from: usize,
        value: T,
        is_wildcard: bool,
    )
        requires
            old(self).wf(),
            from < path@.len(),
        ensures
            final(self).wf(),
            final(self).prefix@ == old(self).prefix@,
            final(self).exact_value == old(self).exact_value,
            final(self).wildcard_value == old(self).wildcard_value,
            forall|k: Seq<char>, w: bool|
                final(self).stored_at(k, w) == (if w == is_wildcard && k == old(self).prefix@
                    + path@.skip(from as int) {
                    Some(value)
                } else {
                    old(self).stored_at(k, w)
                }),
        decreases path@.len() - from, 1int,
    {
        let c = path[from];
        let found = self.child_position(c);
        let ghost n1 = *old(self);
        let ghost key = n1.prefix@ + path@.skip(from as int);
        let ghost rest = path@.skip(from as int);
        match found {
            Some(i) => {
                proof {
                    Self::lemma_find_child_props(n1.children@, c);
                    assert(n1.children@[i as int].wf());
                    assert(n1.children@[i as int].prefix@[0] == c);
                }
                let child = &mut self.children[i];
                child.insert(path, from, value, is_wildcard);
                proof {
                    let child0 = n1.children@[i as int];
                    let child1 = self.children@[i as int];
                    let n2 = *self;
                    assert(n2.children@ == n1.children@.update(i as int, child1));
                    assert(n2.wf()) by {
                        assert forall|a: int|
                            0 <= a < n2.children@.len() implies (
                        #[trigger] n2.children@[a]).prefix@.len() > 0 && n2.children@[a].wf() by {
                            if a != i as int {
                                assert(n2.children@[a] == n1.children@[a]);
                                assert(n1.children@[a].wf());
                            }
                        }
                        assert forall|a: int, b: int|
                            0 <= a < b < n2.children@.len() implies n2.children@[a].prefix@[0]
                            != n2.children@[b].prefix@[0] by {
                            assert(n1.children@[a].prefix@[0] != n1.children@[b].prefix@[0]);
                            assert(n2.children@[a].prefix@[0] == n1.children@[a].prefix@[0]);
                            assert(n2.children@[b].prefix@[0] == n1.children@[b].prefix@[0]);
                        }
                    }
                    Self::lemma_update_child_frame(n1, n2, i as int, rest, Some(value), is_wildcard);
                }
            },
            None => {
                let suffix = copy_suffix(path, from);
                let mut new_child = RadixNode::new(suffix);
                new_child.store_value(value, is_wildcard);
                self.children.push(new_child);
                proof {
                    let n2 = *self;
                    let nc = n2.children@[n1.children@.len() as int];
                    assert(n2.children@ == n1.children@.push(nc));
                    Self::lemma_find_child_props(n1.children@, c);
                    assert(n2.wf()) by {
                        assert forall|a: int|
                            0 <= a < n2.children@.len() implies (
                        #[trigger] n2.children@[a]).prefix@.len() > 0 && n2.children@[a].wf() by {
                            if a < n1.children@.len() {
                                assert(n2.children@[a] == n1.children@[a]);
                                assert(n1.children@[a].wf());
                            }
                        }
                        assert forall|a: int, b: int|
                            0 <= a < b < n2.children@.len() implies n2.children@[a].prefix@[0]
                            != n2.children@[b].prefix@[0] by {
                            if b < n1.children@.len() {
                                assert(n1.children@[a].prefix@[0] != n1.children@[b].prefix@[0]);
                            } else {
                                assert(n2.children@[a] == n1.children@[a]);
                                assert(!(n1.children@[a].prefix@.len() > 0 && n1.children@[a].prefix@[0]
                                    == c));
                            }
                        }
                    }
                    Self::lemma_insert_new_child_frame(n1, n2, rest, value, is_wildcard);
                }
            },
        }
    }
}

/// Copies the tail of `path` from position `from` into a fresh vector.
pub(crate) fn copy_suffix(path: &Vec<char>, from: usize) -> (r: Vec<char>)
    requires
        from <= path@.len(),
    ensures
        r@ == path@.skip(from as int),
{
    let mut r: Vec<char> = Vec::new();
    let n = path.len();
    let mut i: usize = from;
    while i < n
        invariant
            from <= i <= n,
            n == path@.len(),
            r@ == path@.subrange(from as int, i as int),
        decreases n - i,
    {
        r.push(path[i]);
        proof {
            assert(path@.subrange(from as int, i + 1 as int) =~= path@.subrange(
                from as int,
                i as int,
            ).push(path@[i as int]));
        }
        i = i + 1;
    }
    proof {
        assert(r@ =~= path@.skip(from as int));
    }
    r
}

} // verus!
