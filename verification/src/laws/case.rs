//! Lookups that compare the lower-case form of a path.

use crate::laws::literal::law_exact_match_round_trip;
use crate::model::{child_index, lemma_child_from, tree_insert, tree_lookup, Bindings, NodeView};
use crate::segment::{is_literal, segment_len};
use crate::text::lowered;
use vstd::prelude::*;

verus! {

/// The value that a lookup found, without the parameters.
pub open spec fn found_value<T>(found: Option<(T, Bindings)>) -> Option<T> {
    match found {
        Some((value, _)) => Some(value),
        None => None,
    }
}

/// Which value a lookup finds depends on the text that is compared with
/// the tree alone, not on the text from which parameters are cut.
pub proof fn lemma_value_by_key<T>(
    node: NodeView<T>,
    key: Seq<char>,
    raw: Seq<char>,
    bound: Bindings,
    other_raw: Seq<char>,
    other_bound: Bindings,
)
    ensures
        found_value(node.lookup(key, raw, bound)) == found_value(
            node.lookup(key, other_raw, other_bound),
        ),
    decreases node,
{
    let len = node.prefix.len() as int;
    let rest = key.skip(len);
    if node.prefix.is_prefix_of(key) && rest.len() > 0 {
        lemma_child_from(node.children, rest[0], 0);
        match child_index(node.children, rest[0]) {
            Some(j) => lemma_value_by_key(
                node.children[j],
                rest,
                raw.skip(len),
                bound,
                other_raw.skip(len),
                other_bound,
            ),
            None => match node.wildcard {
                Some(param) => {
                    let n = segment_len(rest);
                    assert(node.lookup(key, raw, bound) == param.lookup(
                        rest,
                        raw.skip(len),
                        bound,
                    ));
                    assert(node.lookup(key, other_raw, other_bound) == param.lookup(
                        rest,
                        other_raw.skip(len),
                        other_bound,
                    ));
                    lemma_value_by_key(
                        *param.node,
                        rest.skip(n),
                        raw.skip(len).skip(n),
                        bound.insert(param.name, raw.skip(len).take(n)),
                        other_raw.skip(len).skip(n),
                        other_bound.insert(param.name, other_raw.skip(len).take(n)),
                    );
                },
                None => {},
            },
        }
    }
}

/// Case normalization: two paths that differ only in the case of letters
/// resolve, where the lower-case form of a path is compared with the tree,
/// to the same value.
pub proof fn law_case_is_ignored<T>(
    tree: Option<NodeView<T>>,
    path: Seq<char>,
    other: Seq<char>,
)
    requires
        lowered(path) == lowered(other),
    ensures
        found_value(tree_lookup(tree, lowered(path), path)) == found_value(
            tree_lookup(tree, lowered(other), other),
        ),
{
    match tree {
        Some(root) => lemma_value_by_key(
            root,
            lowered(path),
            path,
            Map::empty(),
            other,
            Map::empty(),
        ),
        None => {},
    }
}

/// A path resolves to a lower-case pattern without parameter tokens that
/// has just been registered, whatever the case of the path's letters.
pub proof fn law_lower_case_round_trip<T>(
    tree: Option<NodeView<T>>,
    pattern: Seq<char>,
    value: T,
    path: Seq<char>,
)
    requires
        is_literal(pattern),
        lowered(path) == pattern,
    ensures
        tree_lookup(tree_insert(tree, pattern, value), lowered(path), path) == Some(
            (value, Map::<Seq<char>, Seq<char>>::empty()),
        ),
{
    law_exact_match_round_trip(tree, pattern, value, path);
}

} // verus!
