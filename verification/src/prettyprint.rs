//! A human-readable rendering of the trie structure, for debugging only:
//! the exact text is no part of the routing contract and nothing may rely
//! on it.
use vstd::prelude::*;

use crate::Trie;
use crate::node::RadixNode;
use vstd::string::StringExecFns;

verus! {

/// Relies on std's Debug formatting of the value type; the text it yields
/// is the value's own business and nothing is claimed of it.
#[verifier::external_body]
fn debug_string<T: core::fmt::Debug>(value: &T) -> String {
    format!("{value:?}")
}

/// Relies on String::push: appends one character to the string.
#[verifier::external_body]
fn push_char(s: &mut String, c: char)
    ensures
        final(s)@ == old(s)@ + seq![c],
{
    s.push(c)
}

impl<T: core::fmt::Debug> RadixNode<T> {
    /// Renders this subtree as indented lines, sorting children by their
    /// leading character for deterministic output.
    fn pretty_print(&self, prefix: &str, is_last: bool, is_root: bool) -> String
        requires
            self.wf(),
        decreases self, 1int,
    {
        let mut output = String::new();

        if !is_root {
            let connector: &str = if is_last {
                "`-- "
            } else {
                "|-- "
            };
            output.append(prefix);
            output.append(connector);
        }

        if self.prefix.len() == 0 && is_root {
            output.append("(root)");
        } else {
            push_char(&mut output, '"');
            let m = self.prefix.len();
            let mut i: usize = 0;
            while i < m
                invariant
                    m == self.prefix@.len(),
                    i <= m,
                decreases m - i,
            {
                push_char(&mut output, self.prefix[i]);
                i = i + 1;
            }
            push_char(&mut output, '"');
        }

        self.append_values_to_output(&mut output);
        push_char(&mut output, '\n');

        self.append_children_to_output(&mut output, prefix, is_last, is_root);

        output
    }

    /// Appends the bracketed list of the values stored at this node.
    fn append_values_to_output(&self, output: &mut String) {
        let mut any: bool = false;
        match &self.exact_value {
            Some(value) => {
                output.append(" [exact: ");
                let shown = debug_string(value);
                output.append(shown.as_str());
                any = true;
            },
            None => {},
        }
        match &self.wildcard_value {
            Some(value) => {
                if any {
                    output.append(", wildcard: ");
                } else {
                    output.append(" [wildcard: ");
                }
                let shown = debug_string(value);
                output.append(shown.as_str());
                any = true;
            },
            None => {},
        }
        if any {
            output.append("]");
        }
    }

    /// Appends the renderings of the children, sorted by leading character.
    fn append_children_to_output(
        &self,
        output: &mut String,
        prefix: &str,
        is_last: bool,
        is_root: bool,
    )
        requires
            self.wf(),
        decreases self, 0int,
    {
        let mut child_prefix = String::new();
        if !is_root {
            child_prefix.append(prefix);
            child_prefix.append(
                if is_last {
                    "    "
                } else {
                    "|   "
                },
            );
        }

        let n = self.children.len();
        let mut used: Vec<bool> = Vec::new();
        let mut i: usize = 0;
        while i < n
            invariant
                i <= n,
                used@.len() == i,
            decreases n - i,
        {
            used.push(false);
            i = i + 1;
        }

        let mut order: Vec<usize> = Vec::new();
        let mut count: usize = 0;
        while count < n
            invariant
                self.wf(),
                n == self.children@.len(),
                used@.len() == n,
                count <= n,
                forall|j: int| 0 <= j < order@.len() ==> (#[trigger] order@[j]) < n,
            decreases n - count,
        {
            let mut best: usize = n;
            let mut j: usize = 0;
            while j < n
                invariant
                    self.wf(),
                    n == self.children@.len(),
                    used@.len() == n,
                    j <= n,
                    best <= n,
                decreases n - j,
            {
                if !used[j] {
                    if best == n || (self.children[j].prefix[0] as u32) < (self.children[best].prefix[0]
                        as u32) {
                        best = j;
                    }
                }
                j = j + 1;
            }
            if best < n {
                used[best] = true;
                order.push(best);
            }
            count = count + 1;
        }

        let m = order.len();
        let mut idx: usize = 0;
        while idx < m
            invariant
                self.wf(),
                n == self.children@.len(),
                m == order@.len(),
                idx <= m,
                forall|j: int| 0 <= j < order@.len() ==> (#[trigger] order@[j]) < n,
            decreases m - idx,
        {
            let is_last_child = idx == m - 1;
            let which = order[idx];
            proof {
                assert(self.children@[which as int].wf());
            }
            let child = &self.children[which];
            let rendered = child.pretty_print(child_prefix.as_str(), is_last_child, false);
            output.append(rendered.as_str());
            idx = idx + 1;
        }
    }
}

impl<T: core::fmt::Debug> Trie<T> {
    /// Returns a human-readable rendering of the trie structure, for
    /// debugging: each line shows one node's prefix and its stored values,
    /// with children sorted by leading character.  The exact text carries
    /// no contract and must not be relied upon.
    pub fn pretty_print(&self) -> String
        requires
            self.wf(),
    {
        proof {
            self.lemma_wf_parts();
        }
        if self.is_empty() {
            String::from_str("(empty trie)\n")
        } else {
            self.0.pretty_print("", true, true)
        }
    }
}

} // verus!
