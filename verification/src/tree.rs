//! The routing tree: a compressed trie over the characters of route
//! patterns, with one value per route and at most one parameter edge per
//! node.

use crate::laws::shape::{lemma_insert_wf, lemma_param_route_wf, lemma_route_wf, tree_wf};
use crate::model::{
    child_from, child_index, common_len, common_len_from, lemma_param_token, tree_accepts,
    tree_insert, tree_lookup, Bindings, NodeView, ParamView,
};
use crate::params::Params;
use crate::segment::{find_delimiter, find_param, lemma_literal_len_skip, lemma_segment_len_skip};
use crate::text::{lowered, to_lowered, Text};
use vstd::prelude::*;

verus! {

/// One node of the tree.
#[derive(Debug)]
pub struct Node<T> {
    prefix: Vec<char>,
    value: Option<T>,
    children: Vec<Node<T>>,
    wildcard: Option<Param<T>>,
}

/// A parameter edge of the tree.
#[derive(Debug)]
pub struct Param<T> {
    name: String,
    node: Box<Node<T>>,
}

/// A routing tree, empty until the first route is registered.
#[derive(Debug)]
pub struct Tree<T> {
    root: Option<Node<T>>,
}

impl<T> Node<T> {
    /// The node as a value of the model.
    pub closed spec fn model(&self) -> NodeView<T>
        decreases self,
    {
        NodeView {
            prefix: self.prefix@,
            value: self.value,
            children: Seq::new(
                self.children@.len(),
                |i: int|
                    if 0 <= i < self.children@.len() {
                        self.children@[i].model()
                    } else {
                        arbitrary()
                    },
            ),
            wildcard: match self.wildcard {
                Some(param) => Some(param.model()),
                None => None,
            },
        }
    }
}

impl<T> Param<T> {
    /// The edge as a value of the model.
    pub closed spec fn model(&self) -> ParamView<T>
        decreases self,
    {
        ParamView { name: self.name@, node: Box::new(self.node.model()) }
    }
}

impl<T> View for Node<T> {
    type V = NodeView<T>;

    open spec fn view(&self) -> NodeView<T> {
        self.model()
    }
}

impl<T> View for Param<T> {
    type V = ParamView<T>;

    open spec fn view(&self) -> ParamView<T> {
        self.model()
    }
}

impl<T> View for Tree<T> {
    type V = Option<NodeView<T>>;

    closed spec fn view(&self) -> Option<NodeView<T>> {
        match self.root {
            Some(node) => Some(node@),
            None => None,
        }
    }
}

/// A copy of the characters of `chars` from `from` up to `to`.
fn copy_range(chars: &Vec<char>, from: usize, to: usize) -> (piece: Vec<char>)
    requires
        from <= to <= chars@.len(),
    ensures
        piece@ == chars@.subrange(from as int, to as int),
{
    let mut piece: Vec<char> = Vec::new();
    let mut i: usize = from;
    while i < to
        invariant
            from <= i <= to <= chars@.len(),
            piece@ == chars@.subrange(from as int, i as int),
        decreases to - i,
    {
        piece.push(chars[i]);
        i += 1;
    }
    piece
}

/// Whether what a lookup returned is what the model finds.
pub open spec fn found_is<T>(found: Option<(&T, Params)>, expected: Option<(T, Bindings)>) -> bool {
    match (found, expected) {
        (Some((value, params)), Some((model_value, bindings))) => *value == model_value && params@
            == bindings,
        (None, None) => true,
        _ => false,
    }
}

impl<T> Node<T> {
    /// The tree for the single route that `text` holds from `from` on.
    fn build(text: &Text, from: usize, value: Option<T>) -> (node: Node<T>)
        requires
            from <= text@.len(),
        ensures
            node@ == NodeView::route(text@.skip(from as int), value),
        decreases text@.len() - from, 1int,
    {
        let chars = text.chars();
        let ghost pattern = text@.skip(from as int);
        if from < chars.len() {
            let stop = find_param(chars, from + 1);
            proof {
                lemma_literal_len_skip(text@, from as int);
                assert(pattern.take(stop - from) =~= text@.subrange(from as int, stop as int));
                assert(pattern.skip(stop - from) =~= text@.skip(stop as int));
            }
            if stop < chars.len() {
                let wildcard = Param::build(text, stop, value);
                let node = Node {
                    prefix: copy_range(chars, from, stop),
                    value: None,
                    children: Vec::new(),
                    wildcard: Some(wildcard),
                };
                assert(node@.children =~= Seq::empty());
                return node;
            }
        }
        let node = Node {
            prefix: copy_range(chars, from, chars.len()),
            value,
            children: Vec::new(),
            wildcard: None,
        };
        proof {
            assert(node@.children =~= Seq::empty());
        }
        node
    }

    /// The position of the first child whose text begins with `c`.
    fn child_position(&self, c: char) -> (found: Option<usize>)
        ensures
            match found {
                Some(j) => child_index(self@.children, c) == Some(j as int) && j
                    < self.children@.len(),
                None => child_index(self@.children, c) is None,
            },
    {
        let mut j: usize = 0;
        while j < self.children.len()
            invariant
                0 <= j <= self.children@.len(),
                self@.children.len() == self.children@.len(),
                child_from(self@.children, c, j as int) == child_index(self@.children, c),
            decreases self.children@.len() - j,
        {
            assert(self@.children[j as int] == self.children@[j as int]@);
            if self.children[j].prefix.len() > 0 && self.children[j].prefix[0] == c {
                return Some(j);
            }
            j += 1;
        }
        None
    }

    /// Whether `key` holds the node's text at position `from`.
    fn matches_at(&self, key: &Vec<char>, from: usize) -> (matches: bool)
        requires
            from <= key@.len(),
        ensures
            matches == self@.prefix.is_prefix_of(key@.skip(from as int)),
    {
        let n = self.prefix.len();
        if key.len() - from < n {
            return false;
        }
        let ghost rest = key@.skip(from as int);
        let mut i: usize = 0;
        while i < n
            invariant
                0 <= i <= n,
                n == self.prefix@.len(),
                from + n <= key.len(),
                rest == key@.skip(from as int),
                forall|j: int| 0 <= j < i ==> self.prefix@[j] == rest[j],
            decreases n - i,
        {
            if self.prefix[i] != key[from + i] {
                return false;
            }
            i += 1;
        }
        true
    }

    /// How far the pattern that `chars` holds from `from` on runs together
    /// with the node's text.
    fn common_at(&self, chars: &Vec<char>, from: usize) -> (at: usize)
        requires
            from <= chars@.len(),
        ensures
            at == common_len(chars@.skip(from as int), self@.prefix),
            at <= self@.prefix.len(),
            from + at <= chars@.len(),
    {
        let ghost pattern = chars@.skip(from as int);
        let total = chars.len();
        let mut at: usize = 0;
        while at < total - from && at < self.prefix.len() && !(at > 0 && chars[from + at] == ':'
            && chars[from + at - 1] == '/') && chars[from + at] == self.prefix[at]
            invariant
                from <= total == chars@.len(),
                pattern == chars@.skip(from as int),
                at <= self.prefix@.len(),
                at <= total - from,
                common_len_from(pattern, self.prefix@, at as int) == common_len(
                    pattern,
                    self.prefix@,
                ),
            decreases total - from - at,
        {
            at += 1;
        }
        at
    }

    /// Registers below this node the pattern that `text` holds from `from`
    /// on.
    fn add_from(&mut self, text: &Text, from: usize, value: Option<T>)
        requires
            from <= text@.len(),
        ensures
            final(self)@ == old(self)@.insert(text@.skip(from as int), value),
        decreases *old(self),
    {
        let chars = text.chars();
        let total = chars.len();
        let ghost pattern = text@.skip(from as int);
        let ghost before = self@;
        let at = self.common_at(chars, from);
        let pos = from + at;
        proof {
            assert(pattern.skip(at as int) =~= text@.skip(pos as int));
        }
        if at > 0 && pos < total && chars[pos] == ':' && chars[pos - 1] == '/' {
            match self.wildcard.take() {
                Some(mut param) => {
                    param.add_from(text, pos, value);
                    self.wildcard = Some(param);
                },
                None => {
                    self.wildcard = Some(Param::build(text, pos, value));
                },
            }
        } else if at < self.prefix.len() {
            let tail = self.prefix.split_off(at);
            let mut children: Vec<Node<T>> = Vec::new();
            std::mem::swap(&mut children, &mut self.children);
            let lower = Node {
                prefix: tail,
                value: self.value.take(),
                children,
                wildcard: self.wildcard.take(),
            };
            self.children.push(lower);
            if pos == total {
                self.value = value;
                assert(self@.children =~= seq![lower@]);
            } else {
                let upper = Node::build(text, pos, value);
                self.children.push(upper);
                assert(self@.children =~= seq![lower@, upper@]);
            }
        } else if pos == total {
            self.value = value;
        } else {
            match self.child_position(chars[pos]) {
                Some(j) => {
                    self.children[j].add_from(text, pos, value);
                    assert(self@.children =~= before.children.update(
                        j as int,
                        before.children[j as int].insert(pattern.skip(at as int), value),
                    ));
                },
                None => {
                    let leaf = Node::build(text, pos, value);
                    self.children.push(leaf);
                    assert(self@.children =~= before.children.push(leaf@));
                },
            }
        }
    }

    /// Whether the pattern that `text` holds from `from` on can be
    /// registered below this node.
    fn accepts_from(&self, text: &Text, from: usize) -> (accepted: bool)
        requires
            from <= text@.len(),
        ensures
            accepted == self@.accepts(text@.skip(from as int)),
        decreases self,
    {
        let chars = text.chars();
        let total = chars.len();
        let ghost pattern = text@.skip(from as int);
        let at = self.common_at(chars, from);
        let pos = from + at;
        proof {
            assert(pattern.skip(at as int) =~= text@.skip(pos as int));
        }
        if at > 0 && pos < total && chars[pos] == ':' && chars[pos - 1] == '/' {
            match &self.wildcard {
                Some(param) => param.accepts_from(text, pos),
                None => true,
            }
        } else if at < self.prefix.len() || pos == total {
            true
        } else {
            match self.child_position(chars[pos]) {
                Some(j) => {
                    self.children[j].accepts_from(text, pos)
                },
                None => true,
            }
        }
    }

    /// Looks up what `key` holds from `from` on, below this node.
    fn find_from<'a>(&'a self, key: &Vec<char>, raw: &Text, from: usize, params: Params) -> (found:
        Option<(&'a T, Params)>)
        requires
            key@.len() == raw@.len(),
            from <= key@.len(),
        ensures
            found_is(
                found,
                self@.lookup(key@.skip(from as int), raw@.skip(from as int), params@),
            ),
        decreases self,
    {
        if !self.matches_at(key, from) {
            return None;
        }
        let total = key.len();
        let at = from + self.prefix.len();
        proof {
            assert(key@.skip(from as int).skip(self.prefix@.len() as int) =~= key@.skip(at as int));
            assert(raw@.skip(from as int).skip(self.prefix@.len() as int) =~= raw@.skip(at as int));
        }
        if at == total {
            return match &self.value {
                Some(value) => Some((value, params)),
                None => None,
            };
        }
        match self.child_position(key[at]) {
            Some(j) => {
                self.children[j].find_from(key, raw, at, params)
            },
            None => match &self.wildcard {
                Some(param) => param.find_from(key, raw, at, params),
                None => None,
            },
        }
    }
}

impl<T> Param<T> {
    /// The edge for the single route that `text` holds from `from` on, where
    /// a parameter token starts.
    fn build(text: &Text, from: usize, value: Option<T>) -> (param: Param<T>)
        requires
            from < text@.len(),
        ensures
            param@ == ParamView::route(text@.skip(from as int), value),
        decreases text@.len() - from, 0int,
    {
        let chars = text.chars();
        assert(from < chars.len());
        let end = find_delimiter(chars, from + 1);
        proof {
            lemma_param_token(text@, from as int);
        }
        Param { name: text.cut(from + 1, end), node: Box::new(Node::build(text, end, value)) }
    }

    /// Registers through this edge the pattern that `text` holds from
    /// `from` on, where a parameter token starts.
    fn add_from(&mut self, text: &Text, from: usize, value: Option<T>)
        requires
            from < text@.len(),
        ensures
            final(self)@ == old(self)@.insert(text@.skip(from as int), value),
        decreases *old(self),
    {
        let chars = text.chars();
        assert(from < chars.len());
        let end = find_delimiter(chars, from + 1);
        proof {
            lemma_param_token(text@, from as int);
        }
        self.node.add_from(text, end, value);
    }

    /// Whether the pattern that `text` holds from `from` on, where a
    /// parameter token starts, can be registered through this edge.
    fn accepts_from(&self, text: &Text, from: usize) -> (accepted: bool)
        requires
            from < text@.len(),
        ensures
            accepted == self@.accepts(text@.skip(from as int)),
        decreases self,
    {
        let chars = text.chars();
        assert(from < chars.len());
        let end = find_delimiter(chars, from + 1);
        proof {
            lemma_param_token(text@, from as int);
        }
        text.cut(from + 1, end) == self.name && self.node.accepts_from(text, end)
    }

    /// Looks up what `key` holds from `from` on, through this edge.
    fn find_from<'a>(&'a self, key: &Vec<char>, raw: &Text, from: usize, params: Params) -> (found:
        Option<(&'a T, Params)>)
        requires
            key@.len() == raw@.len(),
            from <= key@.len(),
        ensures
            found_is(
                found,
                self@.lookup(key@.skip(from as int), raw@.skip(from as int), params@),
            ),
        decreases self,
    {
        let end = find_delimiter(key, from);
        let mut params = params;
        params.insert(self.name.clone(), raw.cut(from, end));
        proof {
            lemma_segment_len_skip(key@, from as int);
            let n = end - from;
            assert(key@.skip(from as int).skip(n) =~= key@.skip(end as int));
            assert(raw@.skip(from as int).skip(n) =~= raw@.skip(end as int));
            assert(raw@.skip(from as int).take(n) =~= raw@.subrange(from as int, end as int));
        }
        self.node.find_from(key, raw, end, params)
    }
}

/// Why a pattern was not registered.
#[derive(Debug, Clone, Copy, PartialEq, Eq, Structural)]
pub enum RouteError {
    /// The pattern names a parameter otherwise than a route registered
    /// before it does at the same position.
    ParamNameConflict,
}

impl RouteError {
    /// The error in words.
    pub fn message(&self) -> (text: String)
        ensures
            text@ == "cannot have different parameter names at the same position"@,
    {
        "cannot have different parameter names at the same position".to_owned()
    }
}

impl<T> Node<T> {
    /// The tree for the single route `path`.
    pub fn new(path: &str, value: Option<T>) -> (node: Node<T>)
        ensures
            node@ == NodeView::route(path@, value),
            node@.wf(),
    {
        let text = Text::new(path);
        proof {
            assert(text@.skip(0) =~= path@);
            lemma_route_wf(path@, value);
        }
        Node::build(&text, 0, value)
    }

    /// Whether `path` can be registered below this node: it names each
    /// parameter as the routes registered before it do.
    pub fn accepts(&self, path: &str) -> (accepted: bool)
        ensures
            accepted == self@.accepts(path@),
    {
        let text = Text::new(path);
        assert(text@.skip(0) =~= path@);
        self.accepts_from(&text, 0)
    }

    /// Registers `path` below this node.
    pub fn add_path(&mut self, path: &str, value: Option<T>)
        requires
            old(self)@.accepts(path@),
        ensures
            final(self)@ == old(self)@.insert(path@, value),
            old(self)@.wf() ==> final(self)@.wf(),
    {
        let text = Text::new(path);
        proof {
            assert(text@.skip(0) =~= path@);
            if self@.wf() {
                lemma_insert_wf(self@, path@, value);
            }
        }
        self.add_from(&text, 0, value);
    }

    /// Looks `path` up below this node, with `params` bound so far.
    pub fn find(&self, path: &str, params: Params) -> (found: Option<(&T, Params)>)
        ensures
            found_is(found, self@.lookup(path@, path@, params@)),
    {
        let text = Text::new(path);
        assert(text@.skip(0) =~= path@);
        self.find_from(text.chars(), &text, 0, params)
    }

    /// The literal text of the node.
    pub fn prefix(&self) -> (prefix: &Vec<char>)
        ensures
            prefix@ == self@.prefix,
    {
        &self.prefix
    }

    /// The value of the route that ends at the node.
    pub fn value(&self) -> (value: Option<&T>)
        ensures
            match value {
                Some(v) => self@.value == Some(*v),
                None => self@.value is None,
            },
    {
        self.value.as_ref()
    }

    /// The literal continuations of the node.
    pub fn children(&self) -> (children: &Vec<Node<T>>)
        ensures
            children@.len() == self@.children.len(),
            forall|j: int|
                0 <= j < children@.len() ==> (#[trigger] children@[j])@ == self@.children[j],
    {
        &self.children
    }

    /// The literal continuation that begins with `c`.
    pub fn child(&self, c: char) -> (child: Option<&Node<T>>)
        ensures
            match child {
                Some(node) => child_index(self@.children, c) is Some && node@
                    == self@.children[child_index(self@.children, c).unwrap()],
                None => child_index(self@.children, c) is None,
            },
    {
        match self.child_position(c) {
            Some(j) => {
                Some(&self.children[j])
            },
            None => None,
        }
    }

    /// The parameter continuation of the node.
    pub fn wildcard(&self) -> (wildcard: Option<&Param<T>>)
        ensures
            match wildcard {
                Some(param) => self@.wildcard == Some(param@),
                None => self@.wildcard is None,
            },
    {
        self.wildcard.as_ref()
    }
}

impl<T> Param<T> {
    /// The parameter edge for the single route `path`, which begins with a
    /// parameter token.
    pub fn new(path: &str, value: Option<T>) -> (param: Param<T>)
        requires
            path@.len() > 0,
            path@[0] == ':',
        ensures
            param@ == ParamView::route(path@, value),
            param@.wf(),
    {
        let text = Text::new(path);
        proof {
            assert(text@.skip(0) =~= path@);
            lemma_param_route_wf(path@, value);
        }
        Param::build(&text, 0, value)
    }

    /// Looks `path` up through this edge, with `params` bound so far: the
    /// text up to the next delimiter is bound to the edge's name.
    pub fn find(&self, path: &str, params: Params) -> (found: Option<(&T, Params)>)
        ensures
            found_is(found, self@.lookup(path@, path@, params@)),
    {
        let text = Text::new(path);
        assert(text@.skip(0) =~= path@);
        self.find_from(text.chars(), &text, 0, params)
    }

    /// The parameter's name.
    pub fn name(&self) -> (name: &str)
        ensures
            name@ == self@.name,
    {
        self.name.as_str()
    }

    /// The tree after the captured segment.
    pub fn node(&self) -> (node: &Node<T>)
        ensures
            node@ == *self@.node,
    {
        &self.node
    }
}

impl<T> Tree<T> {
    #[verifier::type_invariant]
    spec fn well_formed(&self) -> bool {
        tree_wf(self@)
    }

    /// The tree without any route.
    pub fn new() -> (tree: Self)
        ensures
            tree@ is None,
    {
        Tree { root: None }
    }

    /// Whether `path` can be registered: it names each parameter as the
    /// routes registered before it do.
    pub fn accepts(&self, path: &str) -> (accepted: bool)
        ensures
            accepted == tree_accepts(self@, path@),
    {
        match &self.root {
            Some(root) => root.accepts(path),
            None => true,
        }
    }

    /// Registers `path` with `value`.
    pub fn add_path(&mut self, path: &str, value: T)
        requires
            tree_accepts(old(self)@, path@),
        ensures
            final(self)@ == tree_insert(old(self)@, path@, value),
            tree_wf(final(self)@),
    {
        proof {
            use_type_invariant(&*self);
        }
        let mut root: Option<Node<T>> = None;
        std::mem::swap(&mut root, &mut self.root);
        match root {
            Some(mut node) => {
                node.add_path(path, Some(value));
                self.root = Some(node);
            },
            None => {
                self.root = Some(Node::new(path, Some(value)));
            },
        }
    }

    /// Registers `path` with `value` unless it names a parameter otherwise
    /// than the routes registered before it do; the tree is then left as it
    /// was.
    pub fn try_add_path(&mut self, path: &str, value: T) -> (result: Result<(), RouteError>)
        ensures
            match result {
                Ok(_) => tree_accepts(old(self)@, path@) && final(self)@ == tree_insert(
                    old(self)@,
                    path@,
                    value,
                ),
                Err(error) => !tree_accepts(old(self)@, path@) && final(self)@ == old(self)@
                    && error == RouteError::ParamNameConflict,
            },
            tree_wf(final(self)@),
    {
        if self.accepts(path) {
            self.add_path(path, value);
            Ok(())
        } else {
            proof {
                use_type_invariant(&*self);
            }
            Err(RouteError::ParamNameConflict)
        }
    }

    /// Looks `path` up: the value of the route that matches it, and the
    /// parameters that the route captured from it.
    pub fn find(&self, path: &str) -> (found: Option<(&T, Params)>)
        ensures
            found_is(found, tree_lookup(self@, path@, path@)),
    {
        match &self.root {
            Some(root) => root.find(path, Params::new()),
            None => None,
        }
    }

    /// Looks `path` up as `find` does, but compares the lower-case form of
    /// `path` with the literal text of the routes. Parameters are captured
    /// from `path` as it stands.
    pub fn find_ignoring_case(&self, path: &str) -> (found: Option<(&T, Params)>)
        ensures
            found_is(found, tree_lookup(self@, lowered(path@), path@)),
    {
        match &self.root {
            Some(root) => {
                let text = Text::new(path);
                let key = to_lowered(text.chars());
                proof {
                    assert(text@.skip(0) =~= path@);
                    assert(key@.skip(0) =~= lowered(path@));
                }
                root.find_from(&key, &text, 0, Params::new())
            },
            None => None,
        }
    }

    /// The root of the tree.
    pub fn root(&self) -> (root: Option<&Node<T>>)
        ensures
            match root {
                Some(node) => self@ == Some(node@) && node@.wf(),
                None => self@ is None,
            },
    {
        proof {
            use_type_invariant(self);
        }
        self.root.as_ref()
    }
}

} // verus!
