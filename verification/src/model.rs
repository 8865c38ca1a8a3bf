//! The mathematical model of the routing tree: what a tree is, what
//! registering a pattern makes of it, and what a lookup finds in it.

use crate::segment::{
    delimiter_pos_from, is_delimiter, is_param_at, lemma_delimiter_pos_from,
    lemma_segment_len_skip, literal_len, segment_len,
};
use vstd::prelude::*;

verus! {

/// The parameters that a lookup has bound: name to captured text.
pub type Bindings = Map<Seq<char>, Seq<char>>;

/// One node of the tree: a stretch of literal text, the value of the route
/// that ends here, the literal continuations and the parameter continuation.
pub struct NodeView<T> {
    pub prefix: Seq<char>,
    pub value: Option<T>,
    pub children: Seq<NodeView<T>>,
    pub wildcard: Option<ParamView<T>>,
}

/// A parameter edge: the parameter's name and the tree after the captured
/// segment.
pub struct ParamView<T> {
    pub name: Seq<char>,
    pub node: Box<NodeView<T>>,
}

/// How far `pattern` and `prefix` run together from position `i`: up to the
/// first position where one of them ends, they differ, or a parameter token
/// starts in `pattern`.
pub open spec fn common_len_from(pattern: Seq<char>, prefix: Seq<char>, i: int) -> int
    decreases pattern.len() - i,
{
    if i >= pattern.len() || i >= prefix.len() || is_param_at(pattern, i) || pattern[i]
        != prefix[i] {
        i
    } else {
        common_len_from(pattern, prefix, i + 1)
    }
}

/// How far `pattern` and `prefix` run together from their start.
pub open spec fn common_len(pattern: Seq<char>, prefix: Seq<char>) -> int {
    common_len_from(pattern, prefix, 0)
}

/// `common_len_from` stops at the first position from `i` on where the two
/// texts part or a parameter token starts.
pub proof fn lemma_common_len_from(pattern: Seq<char>, prefix: Seq<char>, i: int)
    requires
        0 <= i <= pattern.len(),
        i <= prefix.len(),
    ensures
        i <= common_len_from(pattern, prefix, i) <= pattern.len(),
        common_len_from(pattern, prefix, i) <= prefix.len(),
        forall|j: int|
            i <= j < common_len_from(pattern, prefix, i) ==> pattern[j] == prefix[j]
                && !is_param_at(pattern, j),
        ({
            let at = common_len_from(pattern, prefix, i);
            at == pattern.len() || at == prefix.len() || is_param_at(pattern, at) || pattern[at]
                != prefix[at]
        }),
    decreases pattern.len() - i,
{
    if !(i >= pattern.len() || i >= prefix.len() || is_param_at(pattern, i) || pattern[i]
        != prefix[i]) {
        lemma_common_len_from(pattern, prefix, i + 1);
    }
}

/// The first child at or after position `j` whose text begins with `c`.
pub open spec fn child_from<T>(children: Seq<NodeView<T>>, c: char, j: int) -> Option<int>
    decreases children.len() - j,
{
    if j >= children.len() {
        None
    } else if children[j].prefix.len() > 0 && children[j].prefix[0] == c {
        Some(j)
    } else {
        child_from(children, c, j + 1)
    }
}

/// The first child whose text begins with `c`.
pub open spec fn child_index<T>(children: Seq<NodeView<T>>, c: char) -> Option<int> {
    child_from(children, c, 0)
}

/// `child_from` finds the least position from `j` on of a child whose text
/// begins with `c`.
pub proof fn lemma_child_from<T>(children: Seq<NodeView<T>>, c: char, j: int)
    requires
        0 <= j,
    ensures
        match child_from(children, c, j) {
            Some(k) => {
                &&& j <= k < children.len()
                &&& children[k].prefix.len() > 0
                &&& children[k].prefix[0] == c
                &&& forall|i: int|
                    j <= i < k ==> !((#[trigger] children[i]).prefix.len() > 0
                        && children[i].prefix[0] == c)
            },
            None => forall|i: int|
                j <= i < children.len() ==> !((#[trigger] children[i]).prefix.len() > 0
                    && children[i].prefix[0] == c),
        },
    decreases children.len() - j,
{
    if j < children.len() && !(children[j].prefix.len() > 0 && children[j].prefix[0] == c) {
        lemma_child_from(children, c, j + 1);
    }
}

/// Replacing a child by one that begins with `c` exactly if the child did
/// leaves the first child that begins with `c` where it was.
pub proof fn lemma_child_from_update<T>(
    children: Seq<NodeView<T>>,
    c: char,
    j: int,
    child: NodeView<T>,
    i: int,
)
    requires
        0 <= j < children.len(),
        0 <= i,
        (children[j].prefix.len() > 0 && children[j].prefix[0] == c) == (child.prefix.len() > 0
            && child.prefix[0] == c),
    ensures
        child_from(children.update(j, child), c, i) == child_from(children, c, i),
    decreases children.len() - i,
{
    if i < children.len() {
        lemma_child_from_update(children, c, j, child, i + 1);
    }
}

/// A child added at the end is the first that begins with `c` exactly if
/// it begins with `c` and no other child does.
pub proof fn lemma_child_from_push<T>(
    children: Seq<NodeView<T>>,
    c: char,
    child: NodeView<T>,
    i: int,
)
    requires
        0 <= i <= children.len(),
    ensures
        child_from(children.push(child), c, i) == match child_from(children, c, i) {
            Some(j) => Some(j),
            None => if child.prefix.len() > 0 && child.prefix[0] == c {
                Some(children.len() as int)
            } else {
                None
            },
        },
    decreases children.len() - i,
{
    let grown = children.push(child);
    if i < children.len() {
        lemma_child_from_push(children, c, child, i + 1);
    } else {
        assert(child_from(grown, c, i + 1) is None);
    }
}

/// The name of the parameter token with which `token` begins: the text
/// between its `:` and the next delimiter.
pub open spec fn param_name(token: Seq<char>) -> Seq<char> {
    token.subrange(1, 1 + segment_len(token.skip(1)))
}

/// What follows the parameter token with which `token` begins.
pub open spec fn after_param(token: Seq<char>) -> Seq<char> {
    token.skip(1 + segment_len(token.skip(1)))
}

/// The name and the rest of the parameter token at position `from` of
/// `pattern`, in positions of `pattern`.
pub proof fn lemma_param_token(pattern: Seq<char>, from: int)
    requires
        0 <= from < pattern.len(),
    ensures
        from + 1 <= delimiter_pos_from(pattern, from + 1) <= pattern.len(),
        param_name(pattern.skip(from)) == pattern.subrange(
            from + 1,
            delimiter_pos_from(pattern, from + 1),
        ),
        after_param(pattern.skip(from)) == pattern.skip(delimiter_pos_from(pattern, from + 1)),
        forall|i: int|
            0 <= i < param_name(pattern.skip(from)).len() ==> !is_delimiter(
                #[trigger] param_name(pattern.skip(from))[i],
            ),
{
    let token = pattern.skip(from);
    assert(token.skip(1) =~= pattern.skip(from + 1));
    lemma_segment_len_skip(pattern, from + 1);
    lemma_delimiter_pos_from(pattern, from + 1);
}

impl<T> NodeView<T> {
    /// The tree that holds the single route `pattern`.
    pub open spec fn route(pattern: Seq<char>, value: Option<T>) -> NodeView<T>
        decreases pattern.len(), 1int,
    {
        let k = literal_len(pattern);
        if 0 < k < pattern.len() {
            NodeView {
                prefix: pattern.take(k),
                value: None,
                children: Seq::empty(),
                wildcard: Some(ParamView::route(pattern.skip(k), value)),
            }
        } else {
            NodeView { prefix: pattern, value, children: Seq::empty(), wildcard: None }
        }
    }

    /// The node after `pattern` has been registered below it with `value`.
    pub open spec fn insert(self, pattern: Seq<char>, value: Option<T>) -> NodeView<T>
        decreases self,
    {
        let at = common_len(pattern, self.prefix);
        if is_param_at(pattern, at) {
            let wildcard = match self.wildcard {
                Some(param) => param.insert(pattern.skip(at), value),
                None => ParamView::route(pattern.skip(at), value),
            };
            NodeView { wildcard: Some(wildcard), ..self }
        } else if at < self.prefix.len() {
            let lower = NodeView { prefix: self.prefix.skip(at), ..self };
            if at == pattern.len() {
                NodeView {
                    prefix: self.prefix.take(at),
                    value,
                    children: seq![lower],
                    wildcard: None,
                }
            } else {
                NodeView {
                    prefix: self.prefix.take(at),
                    value: None,
                    children: seq![lower, NodeView::route(pattern.skip(at), value)],
                    wildcard: None,
                }
            }
        } else {
            let rest = pattern.skip(at);
            if rest.len() == 0 {
                NodeView { value, ..self }
            } else {
                proof {
                    lemma_child_from(self.children, rest[0], 0);
                }
                match child_index(self.children, rest[0]) {
                    Some(j) => NodeView {
                        children: self.children.update(j, self.children[j].insert(rest, value)),
                        ..self
                    },
                    None => NodeView {
                        children: self.children.push(NodeView::route(rest, value)),
                        ..self
                    },
                }
            }
        }
    }

    /// Whether `pattern` can be registered below this node: wherever it
    /// meets a parameter edge, it gives the parameter the name that the edge
    /// has.
    pub open spec fn accepts(self, pattern: Seq<char>) -> bool
        decreases self,
    {
        let at = common_len(pattern, self.prefix);
        if is_param_at(pattern, at) {
            match self.wildcard {
                Some(param) => param.accepts(pattern.skip(at)),
                None => true,
            }
        } else if at < self.prefix.len() {
            true
        } else {
            let rest = pattern.skip(at);
            if rest.len() == 0 {
                true
            } else {
                proof {
                    lemma_child_from(self.children, rest[0], 0);
                }
                match child_index(self.children, rest[0]) {
                    Some(j) => self.children[j].accepts(rest),
                    None => true,
                }
            }
        }
    }

    /// What a lookup finds below this node. `key` is the text that is
    /// compared with the literal text of the tree, `raw` the text of the same
    /// length from which parameter values are cut, `bound` the parameters
    /// bound so far.
    pub open spec fn lookup(self, key: Seq<char>, raw: Seq<char>, bound: Bindings) -> Option<
        (T, Bindings),
    >
        decreases self,
    {
        if !self.prefix.is_prefix_of(key) {
            None
        } else {
            let key = key.skip(self.prefix.len() as int);
            let raw = raw.skip(self.prefix.len() as int);
            if key.len() == 0 {
                match self.value {
                    Some(value) => Some((value, bound)),
                    None => None,
                }
            } else {
                proof {
                    lemma_child_from(self.children, key[0], 0);
                }
                match child_index(self.children, key[0]) {
                    Some(j) => self.children[j].lookup(key, raw, bound),
                    None => match self.wildcard {
                        Some(param) => param.lookup(key, raw, bound),
                        None => None,
                    },
                }
            }
        }
    }

    /// The invariant of the tree: every literal continuation has text, no two
    /// of one node begin with the same character, and no parameter name
    /// holds a delimiter.
    pub open spec fn wf(self) -> bool
        decreases self,
    {
        &&& forall|j: int|
            0 <= j < self.children.len() ==> (#[trigger] self.children[j]).prefix.len() > 0
                && self.children[j].wf()
        &&& forall|i: int, j: int|
            0 <= i < j < self.children.len() ==> (#[trigger] self.children[i]).prefix[0] != (
            #[trigger] self.children[j]).prefix[0]
        &&& match self.wildcard {
            Some(param) => param.wf(),
            None => true,
        }
    }
}

impl<T> ParamView<T> {
    /// The parameter edge for the single route `token`, which begins with a
    /// parameter token.
    pub open spec fn route(token: Seq<char>, value: Option<T>) -> ParamView<T>
        decreases token.len(), 0int,
    {
        if token.len() == 0 {
            ParamView {
                name: token,
                node: Box::new(
                    NodeView { prefix: token, value, children: Seq::empty(), wildcard: None },
                ),
            }
        } else {
            proof {
                lemma_delimiter_pos_from(token.skip(1), 0);
            }
            ParamView {
                name: param_name(token),
                node: Box::new(NodeView::route(after_param(token), value)),
            }
        }
    }

    /// The edge after `token`, which begins with a parameter token of this
    /// edge's name, has been registered through it with `value`.
    pub open spec fn insert(self, token: Seq<char>, value: Option<T>) -> ParamView<T>
        decreases self,
    {
        ParamView { name: self.name, node: Box::new(self.node.insert(after_param(token), value)) }
    }

    /// Whether `token` can be registered through this edge.
    pub open spec fn accepts(self, token: Seq<char>) -> bool
        decreases self,
    {
        param_name(token) == self.name && self.node.accepts(after_param(token))
    }

    /// What a lookup finds through this edge: the text up to the next
    /// delimiter is bound to the edge's name, the rest is looked up below.
    pub open spec fn lookup(self, key: Seq<char>, raw: Seq<char>, bound: Bindings) -> Option<
        (T, Bindings),
    >
        decreases self,
    {
        let n = segment_len(key);
        self.node.lookup(key.skip(n), raw.skip(n), bound.insert(self.name, raw.take(n)))
    }

    /// The invariant of the edge.
    pub open spec fn wf(self) -> bool
        decreases self,
    {
        &&& forall|i: int| 0 <= i < self.name.len() ==> !is_delimiter(#[trigger] self.name[i])
        &&& self.node.wf()
    }
}

/// What registering `pattern` with `value` makes of a tree that may be empty.
pub open spec fn tree_insert<T>(tree: Option<NodeView<T>>, pattern: Seq<char>, value: T) -> Option<
    NodeView<T>,
> {
    match tree {
        Some(root) => Some(root.insert(pattern, Some(value))),
        None => Some(NodeView::route(pattern, Some(value))),
    }
}

/// Whether `pattern` can be registered in a tree that may be empty.
pub open spec fn tree_accepts<T>(tree: Option<NodeView<T>>, pattern: Seq<char>) -> bool {
    match tree {
        Some(root) => root.accepts(pattern),
        None => true,
    }
}

/// What a lookup of `path` finds in a tree that may be empty, where `key` is
/// the form of `path` that is compared with the tree's literal text.
pub open spec fn tree_lookup<T>(
    tree: Option<NodeView<T>>,
    key: Seq<char>,
    path: Seq<char>,
) -> Option<(T, Bindings)> {
    match tree {
        Some(root) => root.lookup(key, path, Map::empty()),
        None => None,
    }
}

} // verus!
