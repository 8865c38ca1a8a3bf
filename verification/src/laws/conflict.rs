//! Patterns that name one parameter differently are refused.

use crate::laws::shape::lemma_insert_first_char;
use crate::model::{
    after_param, child_from, child_index, common_len, common_len_from, lemma_child_from,
    lemma_child_from_push, lemma_child_from_update, lemma_common_len_from, lemma_param_token,
    param_name, tree_accepts, tree_insert, NodeView, ParamView,
};
use crate::segment::{
    delimiter_pos_from, is_delimiter, is_param_at, lemma_param_pos_from, literal_len,
};
use vstd::prelude::*;

verus! {

/// Two patterns name a parameter differently at one position: they stand
/// alike up to the `:` of a parameter token at position `at`, and the names
/// that follow it differ.
pub open spec fn names_differ_at(first: Seq<char>, second: Seq<char>, at: int) -> bool {
    &&& is_param_at(first, at)
    &&& at < second.len()
    &&& first.take(at + 1) == second.take(at + 1)
    &&& param_name(first.skip(at)) != param_name(second.skip(at))
}

/// Up to a parameter token, parameter tokens stand in two patterns alike
/// that stand alike up to it.
proof fn lemma_same_tokens(first: Seq<char>, second: Seq<char>, at: int, i: int)
    requires
        names_differ_at(first, second, at),
        0 <= i <= at,
    ensures
        is_param_at(first, i) == is_param_at(second, i),
        first[i] == second[i],
        i > 0 ==> first[i - 1] == second[i - 1],
{
    assert(first[i] == first.take(at + 1)[i]);
    if i > 0 {
        assert(first[i - 1] == first.take(at + 1)[i - 1]);
    }
}

/// Two patterns that name a parameter differently at one position run
/// together with the text of a node equally far, as long as that is not
/// beyond the position.
proof fn lemma_same_common_len(
    first: Seq<char>,
    second: Seq<char>,
    at: int,
    prefix: Seq<char>,
    i: int,
)
    requires
        names_differ_at(first, second, at),
        0 <= i <= at,
        i <= prefix.len(),
    ensures
        common_len_from(first, prefix, i) == common_len_from(second, prefix, i),
        common_len_from(first, prefix, i) <= at,
    decreases at - i,
{
    lemma_same_tokens(first, second, at, i);
    if i < at && i < prefix.len() && !is_param_at(first, i) && first[i] == prefix[i] {
        lemma_same_common_len(first, second, at, prefix, i + 1);
    }
}

/// What is left of two patterns that name a parameter differently at one
/// position, from a position before it on, names it differently too.
proof fn lemma_names_differ_skip(first: Seq<char>, second: Seq<char>, at: int, from: int)
    requires
        names_differ_at(first, second, at),
        0 <= from < at,
    ensures
        names_differ_at(first.skip(from), second.skip(from), at - from),
{
    assert(first.skip(from).take(at - from + 1) =~= first.take(at + 1).skip(from));
    assert(second.skip(from).take(at - from + 1) =~= second.take(at + 1).skip(from));
    assert(first.skip(from).skip(at - from) =~= first.skip(at));
    assert(second.skip(from).skip(at - from) =~= second.skip(at));
}

/// Two patterns that name a parameter differently at one position hold
/// their next delimiter at the same place, from any place before the
/// position on.
proof fn lemma_same_delimiter_pos(first: Seq<char>, second: Seq<char>, at: int, i: int)
    requires
        names_differ_at(first, second, at),
        0 <= i < at,
    ensures
        delimiter_pos_from(first, i) == delimiter_pos_from(second, i),
        delimiter_pos_from(first, i) < at,
    decreases at - i,
{
    lemma_same_tokens(first, second, at, i);
    if !is_delimiter(first[i]) {
        lemma_same_delimiter_pos(first, second, at, i + 1);
    }
}

/// Where two patterns name a parameter differently at a position, and a
/// parameter token starts in them at `k` before it, the token has the same
/// name in both, and what follows it names the parameter differently too.
proof fn lemma_names_differ_after_token(first: Seq<char>, second: Seq<char>, at: int, k: int)
    requires
        names_differ_at(first, second, at),
        is_param_at(first, k),
        k < at,
    ensures
        param_name(first.skip(k)) == param_name(second.skip(k)),
        ({
            let end = delimiter_pos_from(first, k + 1);
            &&& k < end < at
            &&& after_param(first.skip(k)) == first.skip(end)
            &&& after_param(second.skip(k)) == second.skip(end)
            &&& names_differ_at(first.skip(end), second.skip(end), at - end)
        }),
{
    let end = delimiter_pos_from(first, k + 1);
    lemma_same_delimiter_pos(first, second, at, k + 1);
    lemma_param_token(first, k);
    lemma_param_token(second, k);
    assert(first.subrange(k + 1, end) =~= first.take(at + 1).subrange(k + 1, end));
    lemma_names_differ_skip(first, second, at, end);
}

/// The tree for a single route refuses a pattern that names a parameter
/// otherwise than the route does at the same position.
pub proof fn lemma_route_refuses<T>(
    first: Seq<char>,
    second: Seq<char>,
    at: int,
    value: Option<T>,
)
    requires
        names_differ_at(first, second, at),
    ensures
        !NodeView::route(first, value).accepts(second),
    decreases first.len(),
{
    let k = literal_len(first);
    lemma_param_pos_from(first, 0);
    let node = NodeView::route(first, value);
    let edge = ParamView::route(first.skip(k), value);
    lemma_same_common_len(first, second, at, node.prefix, 0);
    lemma_common_len_from(first, node.prefix, 0);
    lemma_same_tokens(first, second, at, k);
    assert(node.accepts(second) == edge.accepts(second.skip(k)));
    if k < at {
        lemma_names_differ_after_token(first, second, at, k);
        let end = delimiter_pos_from(first, k + 1);
        lemma_route_refuses(first.skip(end), second.skip(end), at - end, value);
    }
}

/// A node below which a pattern has been registered refuses a pattern that
/// names a parameter otherwise than the first does at the same position.
pub proof fn lemma_insert_refuses<T>(
    node: NodeView<T>,
    first: Seq<char>,
    second: Seq<char>,
    at: int,
    value: Option<T>,
)
    requires
        names_differ_at(first, second, at),
        node.accepts(first),
    ensures
        !node.insert(first, value).accepts(second),
    decreases node,
{
    let k = common_len(first, node.prefix);
    lemma_common_len_from(first, node.prefix, 0);
    lemma_same_common_len(first, second, at, node.prefix, 0);
    lemma_same_tokens(first, second, at, k);
    let grown = node.insert(first, value);
    if is_param_at(first, k) {
        let edge = grown.wildcard.unwrap();
        assert(grown.accepts(second) == edge.accepts(second.skip(k)));
        match node.wildcard {
            Some(param) => {
                assert(param.accepts(first.skip(k)));
                assert(edge == param.insert(first.skip(k), value));
            },
            None => {},
        }
        if k < at {
            lemma_names_differ_after_token(first, second, at, k);
            let end = delimiter_pos_from(first, k + 1);
            match node.wildcard {
                Some(param) => {
                    lemma_insert_refuses(
                        *param.node,
                        first.skip(end),
                        second.skip(end),
                        at - end,
                        value,
                    );
                },
                None => {
                    lemma_route_refuses(first.skip(end), second.skip(end), at - end, value);
                },
            }
        }
    } else {
        lemma_names_differ_skip(first, second, at, k);
        let rest = first.skip(k);
        let other = second.skip(k);
        if k < node.prefix.len() {
            lemma_same_common_len(first, second, at, grown.prefix, 0);
            lemma_common_len_from(first, grown.prefix, 0);
            assert(child_from(grown.children, other[0], 1) == Some(1int));
            lemma_route_refuses(rest, other, at - k, value);
        } else {
            lemma_child_from(node.children, rest[0], 0);
            match child_index(node.children, rest[0]) {
                Some(j) => {
                    let child = node.children[j].insert(rest, value);
                    lemma_insert_first_char(node.children[j], rest, value);
                    lemma_child_from_update(node.children, other[0], j, child, 0);
                    lemma_insert_refuses(node.children[j], rest, other, at - k, value);
                },
                None => {
                    let child = NodeView::route(rest, value);
                    lemma_child_from_push(node.children, other[0], child, 0);
                    lemma_route_refuses(rest, other, at - k, value);
                },
            }
        }
    }
}

/// Fatal conflict: once a pattern is registered, a pattern that stands like
/// it up to one of its parameter tokens, but gives the parameter another
/// name, is refused.
pub proof fn law_conflicting_names_are_refused<T>(
    tree: Option<NodeView<T>>,
    first: Seq<char>,
    value: T,
    second: Seq<char>,
    at: int,
)
    requires
        tree_accepts(tree, first),
        names_differ_at(first, second, at),
    ensures
        !tree_accepts(tree_insert(tree, first, value), second),
{
    match tree {
        Some(root) => lemma_insert_refuses(root, first, second, at, Some(value)),
        None => lemma_route_refuses(first, second, at, Some(value)),
    }
}

} // verus!
