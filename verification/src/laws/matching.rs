//! What a pattern makes of a path, and that a tree which a pattern fits
//! makes the same of it.

use crate::laws::shape::lemma_insert_first_char;
use crate::model::{
    after_param, child_from, child_index, common_len, lemma_child_from, lemma_child_from_push,
    lemma_child_from_update, lemma_common_len_from, lemma_param_token, param_name, tree_insert,
    tree_lookup, Bindings, NodeView, ParamView,
};
use crate::segment::{
    is_param_at, lemma_delimiter_pos_from, lemma_param_pos_from, literal_len, segment_len,
};
use vstd::prelude::*;

verus! {

/// What a pattern by itself makes of a path: the parameters that it binds
/// if the path matches it. Literal text must stand in `key` as it stands in
/// the pattern; a parameter token takes the text up to the next delimiter,
/// and cuts it from `raw`.
pub open spec fn pattern_bindings(
    pattern: Seq<char>,
    key: Seq<char>,
    raw: Seq<char>,
    bound: Bindings,
) -> Option<Bindings>
    decreases pattern.len(),
{
    let k = literal_len(pattern);
    if 0 < k < pattern.len() {
        let token = pattern.skip(k);
        let rest = key.skip(k);
        if pattern.take(k).is_prefix_of(key) && rest.len() > 0 {
            let n = segment_len(rest);
            proof {
                lemma_param_token(token, 0);
                assert(token.skip(0) =~= token);
            }
            pattern_bindings(
                after_param(token),
                rest.skip(n),
                raw.skip(k).skip(n),
                bound.insert(param_name(token), raw.skip(k).take(n)),
            )
        } else {
            None
        }
    } else if key == pattern {
        Some(bound)
    } else {
        None
    }
}

/// A tree that holds a single route finds its value for the paths that
/// match the route's pattern, with the parameters that the pattern binds,
/// and nothing for any other path.
pub proof fn lemma_route_lookup<T>(
    pattern: Seq<char>,
    value: T,
    key: Seq<char>,
    raw: Seq<char>,
    bound: Bindings,
)
    ensures
        NodeView::route(pattern, Some(value)).lookup(key, raw, bound) == match pattern_bindings(
            pattern,
            key,
            raw,
            bound,
        ) {
            Some(bindings) => Some((value, bindings)),
            None => None,
        },
    decreases pattern.len(),
{
    let k = literal_len(pattern);
    let node = NodeView::route(pattern, Some(value));
    if 0 < k < pattern.len() {
        let token = pattern.skip(k);
        let rest = key.skip(k);
        let param = ParamView::route(token, Some(value));
        if pattern.take(k).is_prefix_of(key) && rest.len() > 0 {
            let n = segment_len(rest);
            lemma_param_token(token, 0);
            assert(token.skip(0) =~= token);
            assert(node.lookup(key, raw, bound) == param.lookup(rest, raw.skip(k), bound));
            lemma_route_lookup(
                after_param(token),
                value,
                rest.skip(n),
                raw.skip(k).skip(n),
                bound.insert(param_name(token), raw.skip(k).take(n)),
            );
        }
    } else {
        if pattern.is_prefix_of(key) {
            let rest = key.skip(pattern.len() as int);
            if rest.len() == 0 {
                assert(key =~= pattern);
            }
        }
    }
}

/// Parameter capture: a tree in which a single pattern has been registered
/// finds its value for exactly the paths that match the pattern, and binds
/// each parameter of the pattern to the text that stands in its place.
pub proof fn law_single_route<T>(pattern: Seq<char>, value: T, key: Seq<char>, raw: Seq<char>)
    ensures
        tree_lookup(tree_insert(None, pattern, value), key, raw) == match pattern_bindings(
            pattern,
            key,
            raw,
            Map::empty(),
        ) {
            Some(bindings) => Some((value, bindings)),
            None => None,
        },
{
    lemma_route_lookup(pattern, value, key, raw, Map::empty());
}

/// Registering a pattern never sends a path to another of the values that
/// were there before, nor to the same one with other parameters: below the
/// node, a lookup finds what it found before, or the value just registered,
/// or nothing.
pub proof fn lemma_insert_never_redirects<T>(
    node: NodeView<T>,
    pattern: Seq<char>,
    value: T,
    key: Seq<char>,
    raw: Seq<char>,
    bound: Bindings,
)
    requires
        key.len() == raw.len(),
    ensures
        ({
            let before = node.lookup(key, raw, bound);
            let after = node.insert(pattern, Some(value)).lookup(key, raw, bound);
            after == before || after is None || after.unwrap().0 == value
        }),
    decreases node,
{
    let at = common_len(pattern, node.prefix);
    lemma_common_len_from(pattern, node.prefix, 0);
    let grown = node.insert(pattern, Some(value));
    let len = node.prefix.len() as int;
    let before = node.lookup(key, raw, bound);
    let after = grown.lookup(key, raw, bound);
    if is_param_at(pattern, at) {
        let token = pattern.skip(at);
        let rest = key.skip(len);
        let raw_rest = raw.skip(len);
        if node.prefix.is_prefix_of(key) && rest.len() > 0 {
            if child_index(node.children, rest[0]) is None {
                let n = segment_len(rest);
                lemma_delimiter_pos_from(rest, 0);
                match node.wildcard {
                    Some(param) => {
                        let edge = param.insert(token, Some(value));
                        assert(before == param.lookup(rest, raw_rest, bound));
                        assert(after == edge.lookup(rest, raw_rest, bound));
                        lemma_insert_never_redirects(
                            *param.node,
                            after_param(token),
                            value,
                            rest.skip(n),
                            raw_rest.skip(n),
                            bound.insert(param.name, raw_rest.take(n)),
                        );
                    },
                    None => {
                        let edge = ParamView::route(token, Some(value));
                        assert(after == edge.lookup(rest, raw_rest, bound));
                        lemma_route_lookup(
                            after_param(token),
                            value,
                            rest.skip(n),
                            raw_rest.skip(n),
                            bound.insert(edge.name, raw_rest.take(n)),
                        );
                    },
                }
            }
        }
    } else if at < len {
        let lower = NodeView { prefix: node.prefix.skip(at), ..node };
        let rest = key.skip(at);
        let raw_rest = raw.skip(at);
        if grown.prefix.is_prefix_of(key) && rest.len() > 0 {
            if rest[0] == node.prefix[at] {
                assert(after == lower.lookup(rest, raw_rest, bound));
                if lower.prefix.is_prefix_of(rest) {
                    assert forall|i: int| 0 <= i < len implies node.prefix[i] == key[i] by {
                        if i < at {
                            assert(grown.prefix[i] == key.subrange(0, at)[i]);
                        } else {
                            assert(lower.prefix[i - at] == rest.subrange(0, len - at)[i - at]);
                        }
                    }
                    assert(rest.skip(lower.prefix.len() as int) =~= key.skip(len));
                    assert(raw_rest.skip(lower.prefix.len() as int) =~= raw.skip(len));
                }
            } else if at < pattern.len() {
                lemma_route_lookup(pattern.skip(at), value, rest, raw_rest, bound);
                if rest[0] == pattern[at] {
                    assert(child_from(grown.children, rest[0], 1) == Some(1int));
                } else {
                    assert(child_from(grown.children, rest[0], 2) is None);
                }
            }
        }
    } else {
        let tail = pattern.skip(at);
        let rest = key.skip(len);
        let raw_rest = raw.skip(len);
        if node.prefix.is_prefix_of(key) && tail.len() > 0 && rest.len() > 0 {
            lemma_child_from(node.children, tail[0], 0);
            lemma_child_from(node.children, rest[0], 0);
            match child_index(node.children, tail[0]) {
                Some(j) => {
                    let child = node.children[j].insert(tail, Some(value));
                    lemma_insert_first_char(node.children[j], tail, Some(value));
                    lemma_child_from_update(node.children, rest[0], j, child, 0);
                    if child_index(node.children, rest[0]) == Some(j) {
                        lemma_insert_never_redirects(
                            node.children[j],
                            tail,
                            value,
                            rest,
                            raw_rest,
                            bound,
                        );
                    }
                },
                None => {
                    let child = NodeView::route(tail, Some(value));
                    lemma_child_from_push(node.children, rest[0], child, 0);
                    lemma_route_lookup(tail, value, rest, raw_rest, bound);
                },
            }
        }
    }
}

/// Registering a pattern never sends a path to another of the values
/// registered before, nor to the same one with other parameters: a lookup
/// finds what it found before, or the value just registered, or nothing.
pub proof fn law_registration_never_redirects<T>(
    tree: Option<NodeView<T>>,
    pattern: Seq<char>,
    value: T,
    key: Seq<char>,
    raw: Seq<char>,
)
    requires
        key.len() == raw.len(),
    ensures
        ({
            let before = tree_lookup(tree, key, raw);
            let after = tree_lookup(tree_insert(tree, pattern, value), key, raw);
            after == before || after is None || after.unwrap().0 == value
        }),
{
    match tree {
        Some(root) => lemma_insert_never_redirects(root, pattern, value, key, raw, Map::empty()),
        None => lemma_route_lookup(pattern, value, key, raw, Map::empty()),
    }
}

/// Whether `pattern` fits below `node`: it puts no parameter where the tree
/// holds literal text, no literal text where the tree holds only a
/// parameter edge, and names each parameter as the tree does.
pub open spec fn fits<T>(node: NodeView<T>, pattern: Seq<char>) -> bool
    decreases node,
{
    let at = common_len(pattern, node.prefix);
    if is_param_at(pattern, at) {
        &&& at == node.prefix.len()
        &&& node.children.len() == 0
        &&& match node.wildcard {
            Some(param) => edge_fits(param, pattern.skip(at)),
            None => true,
        }
    } else if at < node.prefix.len() {
        true
    } else {
        let rest = pattern.skip(at);
        if rest.len() == 0 {
            true
        } else {
            proof {
                lemma_child_from(node.children, rest[0], 0);
            }
            match child_index(node.children, rest[0]) {
                Some(j) => fits(node.children[j], rest),
                None => node.wildcard is None,
            }
        }
    }
}

/// Whether `token`, which begins with a parameter token, fits through
/// `param`.
pub open spec fn edge_fits<T>(param: ParamView<T>, token: Seq<char>) -> bool
    decreases param,
{
    param_name(token) == param.name && fits(*param.node, after_param(token))
}

/// Whether `pattern` fits in a tree that may be empty.
pub open spec fn tree_fits<T>(tree: Option<NodeView<T>>, pattern: Seq<char>) -> bool {
    match tree {
        Some(root) => fits(root, pattern),
        None => true,
    }
}

/// A pattern that fits can be registered.
pub proof fn lemma_fits_accepts<T>(node: NodeView<T>, pattern: Seq<char>)
    requires
        fits(node, pattern),
    ensures
        node.accepts(pattern),
    decreases node,
{
    let at = common_len(pattern, node.prefix);
    if is_param_at(pattern, at) {
        match node.wildcard {
            Some(param) => {
                assert(edge_fits(param, pattern.skip(at)));
                lemma_fits_accepts(*param.node, after_param(pattern.skip(at)));
                assert(param.accepts(pattern.skip(at)));
            },
            None => {},
        }
    } else if at >= node.prefix.len() {
        let rest = pattern.skip(at);
        if rest.len() > 0 {
            lemma_child_from(node.children, rest[0], 0);
            match child_index(node.children, rest[0]) {
                Some(j) => lemma_fits_accepts(node.children[j], rest),
                None => {},
            }
        }
    }
}

/// A path matches a pattern exactly if it begins with literal text with
/// which the pattern begins, and what is left of it matches what is left of
/// the pattern.
pub proof fn lemma_bindings_skip(
    pattern: Seq<char>,
    key: Seq<char>,
    raw: Seq<char>,
    bound: Bindings,
    at: int,
)
    requires
        0 <= at <= pattern.len(),
        forall|i: int| 0 <= i <= at ==> !is_param_at(pattern, i),
        key.len() == raw.len(),
    ensures
        pattern_bindings(pattern, key, raw, bound) == if pattern.take(at).is_prefix_of(key) {
            pattern_bindings(pattern.skip(at), key.skip(at), raw.skip(at), bound)
        } else {
            None
        },
{
    let k = literal_len(pattern);
    let rest = pattern.skip(at);
    let k_rest = literal_len(rest);
    lemma_param_pos_from(pattern, 0);
    lemma_param_pos_from(rest, 0);
    assert(k - at == k_rest) by {
        assert forall|i: int| 0 <= i && is_param_at(rest, i) implies is_param_at(pattern, at + i) by {}
        assert forall|i: int| at < i && is_param_at(pattern, i) implies is_param_at(
            rest,
            i - at,
        ) by {}
    }
    if 0 < k < pattern.len() {
        assert(rest.skip(k_rest) =~= pattern.skip(k));
        if pattern.take(at).is_prefix_of(key) {
            if rest.take(k_rest).is_prefix_of(key.skip(at)) {
                assert(key.skip(at).skip(k_rest) =~= key.skip(k));
                assert(pattern.take(k) =~= key.subrange(0, k)) by {
                    assert forall|i: int| 0 <= i < k implies pattern.take(k)[i] == key.subrange(
                        0,
                        k,
                    )[i] by {
                        if i >= at {
                            assert(rest.take(k_rest)[i - at] == key.skip(at).subrange(
                                0,
                                k_rest,
                            )[i - at]);
                        }
                    }
                }
                assert(raw.skip(at).skip(k_rest) =~= raw.skip(k));
            }
            if pattern.take(k).is_prefix_of(key) {
                assert(rest.take(k_rest) =~= key.skip(at).subrange(0, k_rest)) by {
                    assert forall|i: int| 0 <= i < k_rest implies rest.take(k_rest)[i] == key.skip(
                        at,
                    ).subrange(0, k_rest)[i] by {
                        assert(pattern.take(k)[at + i] == key.subrange(0, k)[at + i]);
                    }
                }
            }
        }
    } else {
        if pattern.take(at).is_prefix_of(key) {
            if key.skip(at) == rest {
                assert(key =~= pattern) by {
                    assert forall|i: int| 0 <= i < pattern.len() implies key[i] == pattern[i] by {
                        if i < at {
                            assert(pattern.take(at)[i] == key.subrange(0, at)[i]);
                        } else {
                            assert(key.skip(at)[i - at] == rest[i - at]);
                        }
                    }
                }
            }
        }
    }
}

/// Below a node that a pattern fits, registering the pattern changes what
/// lookups find for the paths that match it, and for no other path.
pub proof fn lemma_insert_updates_lookup<T>(
    node: NodeView<T>,
    pattern: Seq<char>,
    value: T,
    key: Seq<char>,
    raw: Seq<char>,
    bound: Bindings,
)
    requires
        fits(node, pattern),
        key.len() == raw.len(),
    ensures
        node.insert(pattern, Some(value)).lookup(key, raw, bound) == match pattern_bindings(
            pattern,
            key,
            raw,
            bound,
        ) {
            Some(bindings) => Some((value, bindings)),
            None => node.lookup(key, raw, bound),
        },
    decreases node,
{
    let at = common_len(pattern, node.prefix);
    lemma_common_len_from(pattern, node.prefix, 0);
    lemma_param_pos_from(pattern, 0);
    let grown = node.insert(pattern, Some(value));
    let len = node.prefix.len() as int;
    let before = node.lookup(key, raw, bound);
    let after = grown.lookup(key, raw, bound);
    if is_param_at(pattern, at) {
        let token = pattern.skip(at);
        let rest = key.skip(at);
        let raw_rest = raw.skip(at);
        if node.prefix.is_prefix_of(key) && rest.len() > 0 {
            let n = segment_len(rest);
            lemma_delimiter_pos_from(rest, 0);
            let taken = bound.insert(param_name(token), raw_rest.take(n));
            match node.wildcard {
                Some(param) => {
                    let edge = param.insert(token, Some(value));
                    assert(edge_fits(param, token));
                    assert(before == param.lookup(rest, raw_rest, bound));
                    assert(after == edge.lookup(rest, raw_rest, bound));
                    lemma_insert_updates_lookup(
                        *param.node,
                        after_param(token),
                        value,
                        rest.skip(n),
                        raw_rest.skip(n),
                        taken,
                    );
                },
                None => {
                    let edge = ParamView::route(token, Some(value));
                    assert(after == edge.lookup(rest, raw_rest, bound));
                    lemma_route_lookup(
                        after_param(token),
                        value,
                        rest.skip(n),
                        raw_rest.skip(n),
                        taken,
                    );
                },
            }
        }
    } else {
        lemma_bindings_skip(pattern, key, raw, bound, at);
        let tail = pattern.skip(at);
        let rest = key.skip(at);
        let raw_rest = raw.skip(at);
        if grown.prefix.is_prefix_of(key) {
            if tail.len() == 0 {
                if rest.len() == 0 {
                    assert(rest =~= tail);
                }
            }
            if at < len {
                let lower = NodeView { prefix: node.prefix.skip(at), ..node };
                if rest.len() > 0 {
                    if rest[0] == node.prefix[at] {
                        assert(after == lower.lookup(rest, raw_rest, bound));
                        if lower.prefix.is_prefix_of(rest) {
                            assert forall|i: int| 0 <= i < len implies node.prefix[i]
                                == key[i] by {
                                if i < at {
                                    assert(grown.prefix[i] == key.subrange(0, at)[i]);
                                } else {
                                    assert(lower.prefix[i - at] == rest.subrange(0, len - at)[i
                                        - at]);
                                }
                            }
                            assert(rest.skip(lower.prefix.len() as int) =~= key.skip(len));
                            assert(raw_rest.skip(lower.prefix.len() as int) =~= raw.skip(len));
                        }
                    } else {
                        if at < pattern.len() {
                            lemma_route_lookup(tail, value, rest, raw_rest, bound);
                            if rest[0] == tail[0] {
                                assert(child_from(grown.children, rest[0], 1) == Some(1int));
                            } else {
                                assert(child_from(grown.children, rest[0], 2) is None);
                            }
                        }
                    }
                }
            } else if tail.len() > 0 && rest.len() > 0 {
                lemma_child_from(node.children, tail[0], 0);
                lemma_child_from(node.children, rest[0], 0);
                match child_index(node.children, tail[0]) {
                    Some(j) => {
                        let child = node.children[j].insert(tail, Some(value));
                        lemma_insert_first_char(node.children[j], tail, Some(value));
                        lemma_child_from_update(node.children, rest[0], j, child, 0);
                        if child_index(node.children, rest[0]) == Some(j) {
                            lemma_insert_updates_lookup(
                                node.children[j],
                                tail,
                                value,
                                rest,
                                raw_rest,
                                bound,
                            );
                        }
                    },
                    None => {
                        let child = NodeView::route(tail, Some(value));
                        lemma_child_from_push(node.children, rest[0], child, 0);
                        lemma_route_lookup(tail, value, rest, raw_rest, bound);
                    },
                }
            }
        }
    }
}

/// Registration with the correct parameters: in a tree that a pattern fits,
/// registering the pattern makes lookups find its value, with the
/// parameters that the pattern binds, for exactly the paths that match it.
/// What lookups find for any other path stays as it was.
pub proof fn law_registration_updates_lookup<T>(
    tree: Option<NodeView<T>>,
    pattern: Seq<char>,
    value: T,
    key: Seq<char>,
    raw: Seq<char>,
)
    requires
        tree_fits(tree, pattern),
        key.len() == raw.len(),
    ensures
        tree_lookup(tree_insert(tree, pattern, value), key, raw) == match pattern_bindings(
            pattern,
            key,
            raw,
            Map::empty(),
        ) {
            Some(bindings) => Some((value, bindings)),
            None => tree_lookup(tree, key, raw),
        },
{
    match tree {
        Some(root) => lemma_insert_updates_lookup(root, pattern, value, key, raw, Map::empty()),
        None => lemma_route_lookup(pattern, value, key, raw, Map::empty()),
    }
}

} // verus!
