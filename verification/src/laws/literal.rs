//! Routes without parameters: a registered pattern resolves to its value,
//! whatever else is registered and in whatever order.

use crate::laws::shape::lemma_insert_first_char;
use crate::model::{
    child_from, child_index, common_len, lemma_child_from, lemma_child_from_push,
    lemma_child_from_update, lemma_common_len_from, tree_insert, tree_lookup, Bindings, NodeView,
};
use crate::segment::{is_literal, is_param_at, lemma_param_pos_from, segment_len};
use vstd::prelude::*;

verus! {

/// What is left of a pattern without parameter tokens holds none either.
pub proof fn lemma_literal_suffix(pattern: Seq<char>, from: int)
    requires
        is_literal(pattern),
        0 <= from <= pattern.len(),
    ensures
        is_literal(pattern.skip(from)),
{
    assert forall|i: int| !is_param_at(pattern.skip(from), i) by {
        if is_param_at(pattern.skip(from), i) {
            assert(is_param_at(pattern, from + i));
        }
    }
}

/// The tree for a single route without parameter tokens is one node that
/// holds the whole pattern.
pub proof fn lemma_literal_route<T>(pattern: Seq<char>, value: Option<T>)
    requires
        is_literal(pattern),
    ensures
        NodeView::route(pattern, value) == (NodeView {
            prefix: pattern,
            value,
            children: Seq::empty(),
            wildcard: None,
        }),
{
    lemma_param_pos_from(pattern, 0);
}

/// A lookup of a pattern without parameter tokens, in the node below which
/// it has just been registered, finds the value registered and binds no
/// parameter.
pub proof fn lemma_insert_then_lookup<T>(
    node: NodeView<T>,
    pattern: Seq<char>,
    value: T,
    raw: Seq<char>,
    bound: Bindings,
)
    requires
        is_literal(pattern),
    ensures
        node.insert(pattern, Some(value)).lookup(pattern, raw, bound) == Some((value, bound)),
    decreases node,
{
    let at = common_len(pattern, node.prefix);
    lemma_common_len_from(pattern, node.prefix, 0);
    let rest = pattern.skip(at);
    lemma_literal_suffix(pattern, at);
    if at < node.prefix.len() {
        if at < pattern.len() {
            let lower = NodeView { prefix: node.prefix.skip(at), ..node };
            let upper = NodeView::route(rest, Some(value));
            lemma_literal_route(rest, Some(value));
            let children = seq![lower, upper];
            assert(child_from(children, rest[0], 1) == Some(1int));
            assert(upper.lookup(rest, raw.skip(at), bound) == Some((value, bound)));
        }
    } else if rest.len() > 0 {
        lemma_child_from(node.children, rest[0], 0);
        match child_index(node.children, rest[0]) {
            Some(j) => {
                let child = node.children[j].insert(rest, Some(value));
                lemma_insert_first_char(node.children[j], rest, Some(value));
                lemma_child_from_update(node.children, rest[0], j, child, 0);
                lemma_insert_then_lookup(node.children[j], rest, value, raw.skip(at), bound);
            },
            None => {
                let child = NodeView::route(rest, Some(value));
                lemma_literal_route(rest, Some(value));
                lemma_child_from_push(node.children, rest[0], child, 0);
                assert(child.lookup(rest, raw.skip(at), bound) == Some((value, bound)));
            },
        }
    }
}

/// Exact match round trip: a lookup of a pattern without parameter tokens,
/// in a tree in which it has just been registered, finds the value
/// registered with it and binds no parameter, whatever the text from which
/// parameters would be cut.
pub proof fn law_exact_match_round_trip<T>(
    tree: Option<NodeView<T>>,
    pattern: Seq<char>,
    value: T,
    raw: Seq<char>,
)
    requires
        is_literal(pattern),
    ensures
        tree_lookup(tree_insert(tree, pattern, value), pattern, raw) == Some(
            (value, Map::<Seq<char>, Seq<char>>::empty()),
        ),
{
    let bound = Map::<Seq<char>, Seq<char>>::empty();
    match tree {
        Some(root) => lemma_insert_then_lookup(root, pattern, value, raw, bound),
        None => {
            lemma_literal_route(pattern, Some(value));
        },
    }
}

/// What a lookup finds below `node` when it goes by literal text alone.
pub open spec fn literal_lookup<T>(node: NodeView<T>, key: Seq<char>) -> Option<T>
    decreases node,
{
    if !node.prefix.is_prefix_of(key) {
        None
    } else {
        let key = key.skip(node.prefix.len() as int);
        if key.len() == 0 {
            node.value
        } else {
            proof {
                lemma_child_from(node.children, key[0], 0);
            }
            match child_index(node.children, key[0]) {
                Some(j) => literal_lookup(node.children[j], key),
                None => None,
            }
        }
    }
}

/// A lookup keeps the parameters that were bound before it.
pub proof fn lemma_lookup_keeps_bound<T>(
    node: NodeView<T>,
    key: Seq<char>,
    raw: Seq<char>,
    bound: Bindings,
    name: Seq<char>,
)
    requires
        node.lookup(key, raw, bound) is Some,
        bound.contains_key(name),
    ensures
        node.lookup(key, raw, bound).unwrap().1.contains_key(name),
    decreases node,
{
    let rest = key.skip(node.prefix.len() as int);
    let raw_rest = raw.skip(node.prefix.len() as int);
    if rest.len() > 0 {
        lemma_child_from(node.children, rest[0], 0);
        match child_index(node.children, rest[0]) {
            Some(j) => lemma_lookup_keeps_bound(node.children[j], rest, raw_rest, bound, name),
            None => {
                let param = node.wildcard.unwrap();
                let n = segment_len(rest);
                assert(node.lookup(key, raw, bound) == param.lookup(rest, raw_rest, bound));
                lemma_lookup_keeps_bound(
                    *param.node,
                    rest.skip(n),
                    raw_rest.skip(n),
                    bound.insert(param.name, raw_rest.take(n)),
                    name,
                );
            },
        }
    }
}

/// A lookup that binds no parameter goes by literal text alone.
pub proof fn lemma_unbound_lookup_is_literal<T>(
    node: NodeView<T>,
    key: Seq<char>,
    raw: Seq<char>,
    bound: Bindings,
)
    requires
        node.lookup(key, raw, bound) is Some,
    ensures
        literal_lookup(node, key) == Some(node.lookup(key, raw, bound).unwrap().0)
            && node.lookup(key, raw, bound).unwrap().1 == bound || exists|name: Seq<char>|
            node.lookup(key, raw, bound).unwrap().1.contains_key(name),
    decreases node,
{
    let rest = key.skip(node.prefix.len() as int);
    let raw_rest = raw.skip(node.prefix.len() as int);
    if rest.len() > 0 {
        lemma_child_from(node.children, rest[0], 0);
        match child_index(node.children, rest[0]) {
            Some(j) => lemma_unbound_lookup_is_literal(node.children[j], rest, raw_rest, bound),
            None => {
                let param = node.wildcard.unwrap();
                let n = segment_len(rest);
                let grown = bound.insert(param.name, raw_rest.take(n));
                assert(node.lookup(key, raw, bound) == param.lookup(rest, raw_rest, bound));
                lemma_lookup_keeps_bound(
                    *param.node,
                    rest.skip(n),
                    raw_rest.skip(n),
                    grown,
                    param.name,
                );
            },
        }
    }
}

/// A lookup that can go by literal text alone does, whatever the text from
/// which parameters would be cut.
pub proof fn lemma_literal_lookup_is_lookup<T>(
    node: NodeView<T>,
    key: Seq<char>,
    raw: Seq<char>,
    bound: Bindings,
)
    requires
        literal_lookup(node, key) is Some,
    ensures
        node.lookup(key, raw, bound) == Some((literal_lookup(node, key).unwrap(), bound)),
    decreases node,
{
    let rest = key.skip(node.prefix.len() as int);
    let raw_rest = raw.skip(node.prefix.len() as int);
    if rest.len() > 0 {
        lemma_child_from(node.children, rest[0], 0);
        let j = child_index(node.children, rest[0]).unwrap();
        lemma_literal_lookup_is_lookup(node.children[j], rest, raw_rest, bound);
    }
}

/// Registering a pattern leaves what a lookup by literal text alone finds
/// for any other text.
pub proof fn lemma_insert_keeps_literal<T>(
    node: NodeView<T>,
    pattern: Seq<char>,
    value: Option<T>,
    key: Seq<char>,
)
    requires
        literal_lookup(node, key) is Some,
        pattern != key,
    ensures
        literal_lookup(node.insert(pattern, value), key) == literal_lookup(node, key),
    decreases node,
{
    let at = common_len(pattern, node.prefix);
    lemma_common_len_from(pattern, node.prefix, 0);
    let after = node.insert(pattern, value);
    let len = node.prefix.len() as int;
    let old_rest = key.skip(len);
    if is_param_at(pattern, at) {
        // Only the parameter edge changes, which a literal lookup never takes.
    } else if at < len {
        let lower = NodeView { prefix: node.prefix.skip(at), ..node };
        let rest = key.skip(at);
        assert(rest.skip(lower.prefix.len() as int) =~= old_rest);
        assert(literal_lookup(lower, rest) == literal_lookup(node, key));
    } else {
        let rest = pattern.skip(at);
        if rest.len() == 0 {
            if old_rest.len() == 0 {
                assert(pattern =~= key);
            }
        } else {
            lemma_child_from(node.children, rest[0], 0);
            if old_rest.len() > 0 {
                lemma_child_from(node.children, old_rest[0], 0);
                let k = child_index(node.children, old_rest[0]).unwrap();
                match child_index(node.children, rest[0]) {
                    Some(j) => {
                        let child = node.children[j].insert(rest, value);
                        lemma_insert_first_char(node.children[j], rest, value);
                        lemma_child_from_update(node.children, old_rest[0], j, child, 0);
                        if j == k {
                            if rest == old_rest {
                                assert(pattern =~= pattern.subrange(0, at) + rest);
                                assert(key =~= key.subrange(0, len) + old_rest);
                                assert(pattern.subrange(0, at) =~= key.subrange(0, len));
                            }
                            lemma_insert_keeps_literal(node.children[j], rest, value, old_rest);
                        }
                    },
                    None => {
                        let child = NodeView::route(rest, value);
                        lemma_child_from_push(node.children, old_rest[0], child, 0);
                    },
                }
            }
        }
    }
}

/// Routes without parameters stay: where a lookup found a value without
/// binding a parameter, it finds the same after any other pattern has been
/// registered.
pub proof fn law_literal_route_stays<T>(
    tree: Option<NodeView<T>>,
    pattern: Seq<char>,
    value: T,
    key: Seq<char>,
    raw: Seq<char>,
    found: T,
)
    requires
        tree_lookup(tree, key, raw) == Some((found, Map::<Seq<char>, Seq<char>>::empty())),
        pattern != key,
    ensures
        tree_lookup(tree_insert(tree, pattern, value), key, raw) == Some(
            (found, Map::<Seq<char>, Seq<char>>::empty()),
        ),
{
    let bound = Map::<Seq<char>, Seq<char>>::empty();
    let root = tree.unwrap();
    lemma_unbound_lookup_is_literal(root, key, raw, bound);
    lemma_insert_keeps_literal(root, pattern, Some(value), key);
    lemma_literal_lookup_is_lookup(root.insert(pattern, Some(value)), key, raw, bound);
}

/// The tree after the routes of `routes` have been registered in `tree`,
/// first to last.
pub open spec fn register_all<T>(tree: Option<NodeView<T>>, routes: Seq<(Seq<char>, T)>) -> Option<
    NodeView<T>,
>
    decreases routes.len(),
{
    if routes.len() == 0 {
        tree
    } else {
        tree_insert(register_all(tree, routes.drop_last()), routes.last().0, routes.last().1)
    }
}

/// Whatever is registered, and in whatever order, a pattern without
/// parameter tokens resolves to the value that it was last registered with,
/// and binds no parameter.
pub proof fn law_literal_routes_resolve<T>(
    tree: Option<NodeView<T>>,
    routes: Seq<(Seq<char>, T)>,
    i: int,
)
    requires
        0 <= i < routes.len(),
        is_literal(routes[i].0),
        forall|j: int| i < j < routes.len() ==> routes[j].0 != routes[i].0,
    ensures
        tree_lookup(register_all(tree, routes), routes[i].0, routes[i].0) == Some(
            (routes[i].1, Map::<Seq<char>, Seq<char>>::empty()),
        ),
    decreases routes.len(),
{
    let earlier = routes.drop_last();
    let last = routes.last();
    if i == routes.len() - 1 {
        law_exact_match_round_trip(register_all(tree, earlier), last.0, last.1, last.0);
    } else {
        law_literal_routes_resolve(tree, earlier, i);
        law_literal_route_stays(
            register_all(tree, earlier),
            last.0,
            last.1,
            routes[i].0,
            routes[i].0,
            routes[i].1,
        );
    }
}

} // verus!
