//! A vertex of the routing trie.

use vstd::prelude::*;
use crate::router::handler::SharedHandler;
use crate::text::{chars_of, find, lemma_find, string_of};

verus! {

/// A handler with the stamp it got at registration.
pub type PrioritizedHandler<F> = (u32, SharedHandler<F>);

/// The name and the argument of a parameter fragment.
pub type FragmentParameter = Option<(String, String)>;

/// A vertex of the trie. Vertices live in the tree's arena and name each
/// other by their index in it.
#[derive(Debug)]
pub struct Node<F> {
    /// The text of the fragment; the key under which the parent holds this
    /// node.
    pub fragment: String,
    /// Present exactly when the fragment starts with `:`.
    pub parameter: FragmentParameter,
    /// The handlers registered with the pattern that ends here.
    pub handlers: Vec<PrioritizedHandler<F>>,
    /// The children, no two with the same fragment.
    pub next: Vec<usize>,
    /// The parent; `None` for a node that hangs under nothing.
    pub parent: Option<usize>,
}

/// The parameter that a fragment declares, if it declares one.
///
/// A fragment that does not start with `:` declares none. Otherwise the name
/// is what follows the `:`, unless the fragment ends with `}` and holds a
/// `{`: then the name ends before the first `{`, and the argument is what
/// stands between that `{` and the final `}`.
pub open spec fn parameter_of(fragment: Seq<char>) -> Option<(Seq<char>, Seq<char>)> {
    if fragment.len() == 0 || fragment[0] != ':' {
        None
    } else if fragment.last() != '}' {
        Some((fragment.skip(1), Seq::empty()))
    } else {
        let open = find(fragment, '{');
        if open < fragment.len() {
            Some((fragment.subrange(1, open), fragment.subrange(open + 1, fragment.len() - 1)))
        } else {
            Some((fragment.skip(1), Seq::empty()))
        }
    }
}

/// A parameter as character sequences.
pub open spec fn parameter_view(parameter: FragmentParameter) -> Option<(Seq<char>, Seq<char>)> {
    match parameter {
        Some((name, arg)) => Some((name@, arg@)),
        None => None,
    }
}

impl<F> Node<F> {
    /// A node for `fragment` without handlers, children or parent.
    pub fn new(fragment: &str) -> (node: Node<F>)
        ensures
            node.fragment@ == fragment@,
            parameter_view(node.parameter) == parameter_of(fragment@),
            node.handlers@.len() == 0,
            node.next@.len() == 0,
            node.parent is None,
    {
        Node {
            fragment: fragment.to_owned(),
            parameter: Self::parse_parameter(fragment),
            handlers: Vec::new(),
            next: Vec::new(),
            parent: None,
        }
    }

    /// Reads the parameter that `fragment` declares. No fragment is refused:
    /// braces that do not pair up simply stay part of the name.
    pub fn parse_parameter(fragment: &str) -> (parameter: FragmentParameter)
        ensures
            parameter_view(parameter) == parameter_of(fragment@),
    {
        let chars = chars_of(fragment);
        let n = chars.len();
        if n == 0 || chars[0] != ':' {
            return None;
        }
        if chars[n - 1] != '}' {
            let name = string_of(&chars, 1, n);
            return Some((name, String::new()));
        }
        let mut open: usize = 0;
        while open < n && chars[open] != '{'
            invariant
                open <= n == chars@.len(),
                forall|j: int| 0 <= j < open ==> chars@[j] != '{',
            decreases n - open,
        {
            open = open + 1;
        }
        proof {
            lemma_find(chars@, '{', open as int);
        }
        if open < n {
            let name = string_of(&chars, 1, open);
            let arg = string_of(&chars, open + 1, n - 1);
            Some((name, arg))
        } else {
            let name = string_of(&chars, 1, n);
            Some((name, String::new()))
        }
    }
}

} // verus!
