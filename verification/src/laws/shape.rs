//! The invariant of the tree, and that registration keeps it.

use crate::model::{
    after_param, child_index, common_len, lemma_child_from, lemma_common_len_from,
    lemma_param_token, tree_insert, NodeView, ParamView,
};
use crate::segment::{is_param_at, literal_len};
use vstd::prelude::*;

verus! {

/// Whether a tree that may be empty meets the invariant of the tree.
pub open spec fn tree_wf<T>(tree: Option<NodeView<T>>) -> bool {
    match tree {
        Some(root) => root.wf(),
        None => true,
    }
}

/// The tree for a single route meets the invariant, and its text begins as
/// the pattern does.
pub proof fn lemma_route_wf<T>(pattern: Seq<char>, value: Option<T>)
    ensures
        NodeView::route(pattern, value).wf(),
        pattern.len() > 0 ==> NodeView::route(pattern, value).prefix.len() > 0 && NodeView::route(
            pattern,
            value,
        ).prefix[0] == pattern[0],
    decreases pattern.len(), 1int,
{
    let k = literal_len(pattern);
    if 0 < k < pattern.len() {
        lemma_param_route_wf(pattern.skip(k), value);
    }
}

/// The parameter edge for a single route meets the invariant.
pub proof fn lemma_param_route_wf<T>(token: Seq<char>, value: Option<T>)
    ensures
        ParamView::route(token, value).wf(),
    decreases token.len(), 0int,
{
    if token.len() > 0 {
        lemma_param_token(token, 0);
        assert(token.skip(0) =~= token);
        lemma_route_wf(after_param(token), value);
    }
}

/// Registering a pattern leaves the first character of the node's text
/// where the pattern begins with it.
pub proof fn lemma_insert_first_char<T>(node: NodeView<T>, pattern: Seq<char>, value: Option<T>)
    requires
        node.prefix.len() > 0,
        pattern.len() > 0,
        pattern[0] == node.prefix[0],
    ensures
        node.insert(pattern, value).prefix.len() > 0,
        node.insert(pattern, value).prefix[0] == node.prefix[0],
{
    lemma_common_len_from(pattern, node.prefix, 0);
}

/// Registering a pattern keeps the invariant, and leaves the first
/// character of the node's text where the pattern begins with it.
pub proof fn lemma_insert_wf<T>(node: NodeView<T>, pattern: Seq<char>, value: Option<T>)
    requires
        node.wf(),
    ensures
        node.insert(pattern, value).wf(),
        node.prefix.len() > 0 && pattern.len() > 0 && pattern[0] == node.prefix[0]
            ==> node.insert(pattern, value).prefix.len() > 0 && node.insert(
            pattern,
            value,
        ).prefix[0] == node.prefix[0],
    decreases node,
{
    let at = common_len(pattern, node.prefix);
    lemma_common_len_from(pattern, node.prefix, 0);
    if is_param_at(pattern, at) {
        match node.wildcard {
            Some(param) => {
                assert(param.wf());
                lemma_insert_wf(*param.node, after_param(pattern.skip(at)), value);
                assert(param.insert(pattern.skip(at), value).wf());
            },
            None => {
                lemma_param_route_wf(pattern.skip(at), value);
            },
        }
    } else if at < node.prefix.len() {
        let lower = NodeView { prefix: node.prefix.skip(at), ..node };
        assert(lower.wf());
        if at < pattern.len() {
            lemma_route_wf(pattern.skip(at), value);
        }
    } else {
        let rest = pattern.skip(at);
        if rest.len() > 0 {
            lemma_child_from(node.children, rest[0], 0);
            match child_index(node.children, rest[0]) {
                Some(j) => {
                    lemma_insert_wf(node.children[j], rest, value);
                },
                None => {
                    lemma_route_wf(rest, value);
                },
            }
        }
    }
}

/// Registering a pattern in a tree that may be empty keeps the invariant.
pub proof fn law_registration_keeps_shape<T>(
    tree: Option<NodeView<T>>,
    pattern: Seq<char>,
    value: T,
)
    requires
        tree_wf(tree),
    ensures
        tree_wf(tree_insert(tree, pattern, value)),
{
    match tree {
        Some(root) => lemma_insert_wf(root, pattern, Some(value)),
        None => lemma_route_wf(pattern, Some(value)),
    }
}

} // verus!
