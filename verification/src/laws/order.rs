//! Route tables whose patterns agree: in whatever order such patterns are
//! registered, a lookup finds the route that matches the path.

use crate::laws::shape::lemma_insert_first_char;
use crate::laws::literal::register_all;
use crate::laws::matching::{
    edge_fits, fits, law_registration_updates_lookup, lemma_fits_accepts, pattern_bindings,
    tree_fits,
};
use crate::model::{
    after_param, child_from, child_index, common_len, common_len_from, lemma_child_from,
    lemma_child_from_push, lemma_child_from_update, lemma_common_len_from, lemma_param_token,
    param_name, tree_accepts, tree_lookup, Bindings, NodeView, ParamView,
};
use crate::segment::{
    delimiter_pos_from, is_param_at, lemma_delimiter_pos_from, lemma_param_pos_from, literal_len,
    segment_len,
};
use vstd::prelude::*;

verus! {

/// Whether two patterns agree: wherever they stand alike up to a position
/// that both reach, a parameter token starts there in both or in neither,
/// and where one starts in both, it has the same name in both.
pub open spec fn agree(a: Seq<char>, b: Seq<char>) -> bool {
    forall|d: int|
        #![trigger a.take(d), b.take(d)]
        0 <= d < a.len() && d < b.len() && a.take(d) == b.take(d) ==> is_param_at(a, d)
            == is_param_at(b, d) && (is_param_at(a, d) ==> param_name(a.skip(d)) == param_name(
            b.skip(d),
        ))
}

/// What is left of two patterns that agree, after text in which they stand
/// alike and after which no parameter token starts, agrees too.
pub proof fn lemma_agree_skip(a: Seq<char>, b: Seq<char>, at: int)
    requires
        agree(a, b),
        0 <= at <= a.len(),
        at <= b.len(),
        a.take(at) == b.take(at),
        !is_param_at(a, at),
        !is_param_at(b, at),
    ensures
        agree(a.skip(at), b.skip(at)),
{
    let x = a.skip(at);
    let y = b.skip(at);
    assert forall|d: int|
        #![trigger x.take(d), y.take(d)]
        0 <= d < x.len() && d < y.len() && x.take(d) == y.take(d) implies is_param_at(x, d)
            == is_param_at(y, d) && (is_param_at(x, d) ==> param_name(x.skip(d)) == param_name(
        y.skip(d),
    )) by {
        let head_a = a.take(at + d);
        let head_b = b.take(at + d);
        assert(head_a =~= head_b) by {
            assert forall|i: int| 0 <= i < head_a.len() implies head_a[i] == head_b[i] by {
                if i >= at {
                    assert(x.take(d)[i - at] == y.take(d)[i - at]);
                }
            }
        }
        assert(x.skip(d) =~= a.skip(at + d));
        assert(y.skip(d) =~= b.skip(at + d));
    }
}

/// Where a parameter token starts in two patterns that agree, after text in
/// which they stand alike, the token has the same name in both, and what
/// follows the token agrees too.
pub proof fn lemma_agree_after(a: Seq<char>, b: Seq<char>, at: int)
    requires
        agree(a, b),
        a.take(at) == b.take(at),
        is_param_at(a, at),
        is_param_at(b, at),
    ensures
        param_name(a.skip(at)) == param_name(b.skip(at)),
        agree(after_param(a.skip(at)), after_param(b.skip(at))),
{
    let end_a = delimiter_pos_from(a, at + 1);
    let end_b = delimiter_pos_from(b, at + 1);
    lemma_param_token(a, at);
    lemma_param_token(b, at);
    let head_a = a.take(end_a);
    let head_b = b.take(end_a);
    let name_a = a.subrange(at + 1, end_a);
    let name_b = b.subrange(at + 1, end_b);
    assert(head_a =~= head_b) by {
        assert forall|i: int| 0 <= i < head_a.len() implies head_a[i] == head_b[i] by {
            if i > at {
                assert(name_a[i - at - 1] == name_b[i - at - 1]);
            }
        }
    }
    lemma_delimiter_pos_from(a, at + 1);
    lemma_delimiter_pos_from(b, at + 1);
    lemma_agree_skip(a, b, end_a);
}

/// How far a pattern runs together with a text, counted from a position
/// up to which they run together, is what is left of the two runs together.
pub proof fn lemma_common_len_skip(pattern: Seq<char>, prefix: Seq<char>, at: int, i: int)
    requires
        0 <= at <= pattern.len(),
        at <= prefix.len(),
        0 <= i,
        i >= 1 || !is_param_at(pattern, at),
    ensures
        common_len_from(pattern.skip(at), prefix.skip(at), i) + at == common_len_from(
            pattern,
            prefix,
            at + i,
        ) || (at + i > pattern.len() && common_len_from(pattern.skip(at), prefix.skip(at), i) == i),
    decreases pattern.len() - at - i,
{
    let rest = pattern.skip(at);
    let tail = prefix.skip(at);
    if i < rest.len() && i < tail.len() {
        if !is_param_at(rest, i) && rest[i] == tail[i] {
            lemma_common_len_skip(pattern, prefix, at, i + 1);
        }
    }
}

/// The run of a pattern together with a text passes every position before
/// its end.
pub proof fn lemma_common_len_resume(pattern: Seq<char>, prefix: Seq<char>, i: int, at: int)
    requires
        0 <= i <= at <= common_len_from(pattern, prefix, i),
    ensures
        common_len_from(pattern, prefix, at) == common_len_from(pattern, prefix, i),
    decreases at - i,
{
    if i < at {
        lemma_common_len_resume(pattern, prefix, i + 1, at);
    }
}

/// A pattern runs together with the beginning of a text as far as with the
/// text, or to the end of the beginning.
pub proof fn lemma_common_len_take(pattern: Seq<char>, prefix: Seq<char>, m: int, i: int)
    requires
        0 <= i <= m <= prefix.len(),
    ensures
        common_len_from(pattern, prefix.take(m), i) == if common_len_from(pattern, prefix, i) < m {
            common_len_from(pattern, prefix, i)
        } else {
            m
        },
    decreases m - i,
{
    if i < m && i < pattern.len() && !is_param_at(pattern, i) && pattern[i] == prefix[i] {
        lemma_common_len_take(pattern, prefix, m, i + 1);
    } else if i >= m && i <= pattern.len() {
        lemma_common_len_from(pattern, prefix, i);
    }
}

/// A pattern that fits below a node fits, after text with which it runs
/// together, below the node that holds what is left of the text.
pub proof fn lemma_fits_lower<T>(node: NodeView<T>, pattern: Seq<char>, at: int)
    requires
        fits(node, pattern),
        0 <= at <= common_len(pattern, node.prefix),
        !is_param_at(pattern, at),
    ensures
        fits(NodeView { prefix: node.prefix.skip(at), ..node }, pattern.skip(at)),
{
    let lower = NodeView { prefix: node.prefix.skip(at), ..node };
    let rest = pattern.skip(at);
    let whole = common_len(pattern, node.prefix);
    let part = common_len(rest, lower.prefix);
    lemma_common_len_from(pattern, node.prefix, 0);
    lemma_common_len_resume(pattern, node.prefix, 0, at);
    lemma_common_len_skip(pattern, node.prefix, at, 0);
    assert(rest.skip(part) =~= pattern.skip(whole));
}

/// A pattern fits the tree for a single route with whose pattern it
/// agrees.
pub proof fn lemma_route_fits<T>(a: Seq<char>, value: Option<T>, b: Seq<char>)
    requires
        agree(a, b),
    ensures
        fits(NodeView::route(a, value), b),
    decreases a.len(),
{
    let k = literal_len(a);
    let node = NodeView::route(a, value);
    let at = common_len(b, node.prefix);
    lemma_param_pos_from(a, 0);
    lemma_common_len_from(b, node.prefix, 0);
    assert(a.take(at) =~= b.take(at));
    if 0 < k < a.len() {
        if is_param_at(b, at) {
            let token = a.skip(k);
            let edge = ParamView::route(token, value);
            lemma_agree_after(a, b, k);
            lemma_param_token(a, k);
            lemma_route_fits(after_param(token), value, after_param(b.skip(k)));
            assert(edge_fits(edge, b.skip(k)));
        }
    }
}

/// A pattern that fits below a node still fits below it after a pattern
/// with which it agrees, and which fits too, has been registered there.
pub proof fn lemma_insert_keeps_fit<T>(
    node: NodeView<T>,
    a: Seq<char>,
    value: Option<T>,
    b: Seq<char>,
)
    requires
        fits(node, a),
        fits(node, b),
        agree(a, b),
    ensures
        fits(node.insert(a, value), b),
    decreases node,
{
    let len = node.prefix.len() as int;
    let at_a = common_len(a, node.prefix);
    let at_b = common_len(b, node.prefix);
    lemma_common_len_from(a, node.prefix, 0);
    lemma_common_len_from(b, node.prefix, 0);
    let grown = node.insert(a, value);
    if is_param_at(a, at_a) {
        let token = a.skip(at_a);
        if at_b == len {
            assert(a.take(len) =~= b.take(len));
            if is_param_at(b, at_b) {
                lemma_agree_after(a, b, len);
                match node.wildcard {
                    Some(param) => {
                        assert(edge_fits(param, token));
                        assert(edge_fits(param, b.skip(len)));
                        lemma_insert_keeps_fit(
                            *param.node,
                            after_param(token),
                            value,
                            after_param(b.skip(len)),
                        );
                        assert(edge_fits(param.insert(token, value), b.skip(len)));
                    },
                    None => {
                        lemma_route_fits(after_param(token), value, after_param(b.skip(len)));
                        assert(edge_fits(ParamView::route(token, value), b.skip(len)));
                    },
                }
            }
        }
    } else if at_a < len {
        lemma_common_len_take(b, node.prefix, at_a, 0);
        let at = common_len(b, grown.prefix);
        if at == at_a && !is_param_at(b, at) {
            let rest = b.skip(at);
            assert(a.take(at) =~= b.take(at));
            if rest.len() > 0 {
                if rest[0] == node.prefix[at_a] {
                    lemma_fits_lower(node, b, at_a);
                } else if at_a < a.len() {
                    let tail = a.skip(at_a);
                    if rest[0] == tail[0] {
                        assert(child_from(grown.children, rest[0], 1) == Some(1int));
                        lemma_agree_skip(a, b, at_a);
                        lemma_route_fits(tail, value, rest);
                    } else {
                        assert(child_from(grown.children, rest[0], 2) is None);
                    }
                }
            }
        }
    } else {
        let tail = a.skip(at_a);
        if tail.len() > 0 {
            lemma_child_from(node.children, tail[0], 0);
            if at_b == len {
                assert(a.take(len) =~= b.take(len));
                let rest = b.skip(len);
                if !is_param_at(b, at_b) && rest.len() > 0 {
                    lemma_child_from(node.children, rest[0], 0);
                    match child_index(node.children, tail[0]) {
                        Some(j) => {
                            let child = node.children[j].insert(tail, value);
                            lemma_insert_first_char(node.children[j], tail, value);
                            lemma_child_from_update(node.children, rest[0], j, child, 0);
                            if child_index(node.children, rest[0]) == Some(j) {
                                lemma_agree_skip(a, b, len);
                                lemma_insert_keeps_fit(node.children[j], tail, value, rest);
                            }
                        },
                        None => {
                            let child = NodeView::route(tail, value);
                            lemma_child_from_push(node.children, rest[0], child, 0);
                            if child_index(node.children, rest[0]) is None && rest[0] == tail[0] {
                                lemma_agree_skip(a, b, len);
                                lemma_route_fits(tail, value, rest);
                            }
                        },
                    }
                }
            }
        }
    }
}

/// Whether every two patterns of `routes` agree.
pub open spec fn all_agree<T>(routes: Seq<(Seq<char>, T)>) -> bool {
    forall|i: int, j: int|
        0 <= i < routes.len() && 0 <= j < routes.len() ==> agree(
            (#[trigger] routes[i]).0,
            (#[trigger] routes[j]).0,
        )
}

/// What the last of `routes` that matches a path makes of it: its value,
/// and the parameters that its pattern binds.
pub open spec fn last_match<T>(
    routes: Seq<(Seq<char>, T)>,
    key: Seq<char>,
    raw: Seq<char>,
) -> Option<(T, Bindings)>
    decreases routes.len(),
{
    if routes.len() == 0 {
        None
    } else {
        match pattern_bindings(routes.last().0, key, raw, Map::empty()) {
            Some(bindings) => Some((routes.last().1, bindings)),
            None => last_match(routes.drop_last(), key, raw),
        }
    }
}

/// A pattern fits a tree in which only patterns have been registered that
/// agree with it and with each other.
pub proof fn lemma_registered_fit<T>(routes: Seq<(Seq<char>, T)>, pattern: Seq<char>)
    requires
        all_agree(routes),
        forall|i: int| 0 <= i < routes.len() ==> agree((#[trigger] routes[i]).0, pattern),
    ensures
        tree_fits(register_all(None, routes), pattern),
    decreases routes.len(),
{
    if routes.len() > 0 {
        let earlier = routes.drop_last();
        let last = routes.last();
        let tree = register_all(None, earlier);
        lemma_registered_fit(earlier, pattern);
        lemma_registered_fit(earlier, last.0);
        match tree {
            Some(root) => lemma_insert_keeps_fit(root, last.0, Some(last.1), pattern),
            None => lemma_route_fits(last.0, Some(last.1), pattern),
        }
    }
}

/// A pattern can be registered in a tree in which only patterns have been
/// registered that agree with it and with each other.
pub proof fn law_agreeing_pattern_is_accepted<T>(routes: Seq<(Seq<char>, T)>, pattern: Seq<char>)
    requires
        all_agree(routes),
        forall|i: int| 0 <= i < routes.len() ==> agree((#[trigger] routes[i]).0, pattern),
    ensures
        tree_accepts(register_all(None, routes), pattern),
{
    lemma_registered_fit(routes, pattern);
    match register_all(None, routes) {
        Some(root) => lemma_fits_accepts(root, pattern),
        None => {},
    }
}

/// Routes stay resolvable with the correct parameters: after routes whose
/// patterns agree with each other have been registered, in whatever order,
/// a lookup finds for every path the value of the route that was registered
/// last among those whose pattern matches the path, with the parameters that
/// the pattern binds; and nothing where no pattern matches.
pub proof fn law_routes_resolve<T>(routes: Seq<(Seq<char>, T)>, key: Seq<char>, raw: Seq<char>)
    requires
        all_agree(routes),
        key.len() == raw.len(),
    ensures
        tree_lookup(register_all(None, routes), key, raw) == last_match(routes, key, raw),
    decreases routes.len(),
{
    if routes.len() > 0 {
        let earlier = routes.drop_last();
        let last = routes.last();
        lemma_registered_fit(earlier, last.0);
        law_routes_resolve(earlier, key, raw);
        law_registration_updates_lookup(register_all(None, earlier), last.0, last.1, key, raw);
    }
}

/// Two patterns that agree and match one path are one pattern.
pub proof fn lemma_one_match(
    a: Seq<char>,
    b: Seq<char>,
    key: Seq<char>,
    raw: Seq<char>,
    bound_a: Bindings,
    bound_b: Bindings,
)
    requires
        agree(a, b),
        pattern_bindings(a, key, raw, bound_a) is Some,
        pattern_bindings(b, key, raw, bound_b) is Some,
    ensures
        a == b,
    decreases a.len(),
{
    let ka = literal_len(a);
    let kb = literal_len(b);
    lemma_param_pos_from(a, 0);
    lemma_param_pos_from(b, 0);
    let a_token = 0 < ka < a.len();
    let b_token = 0 < kb < b.len();
    if a_token && b_token {
        let head_a = a.take(ka);
        assert(head_a =~= key.subrange(0, ka));
        if ka < kb {
            assert(a.take(ka) =~= b.take(ka));
            assert(is_param_at(a, ka) == is_param_at(b, ka));
        } else if kb < ka {
            assert(a.take(kb) =~= b.take(kb));
        } else {
            let k = ka;
            lemma_agree_after(a, b, k);
            lemma_param_token(a, k);
            lemma_param_token(b, k);
            let token_a = a.skip(k);
            let token_b = b.skip(k);
            let rest = key.skip(k);
            let n = segment_len(rest);
            lemma_one_match(
                after_param(token_a),
                after_param(token_b),
                rest.skip(n),
                raw.skip(k).skip(n),
                bound_a.insert(param_name(token_a), raw.skip(k).take(n)),
                bound_b.insert(param_name(token_b), raw.skip(k).take(n)),
            );
            let end_a = delimiter_pos_from(a, k + 1);
            let end_b = delimiter_pos_from(b, k + 1);
            assert(a =~= b) by {
                assert forall|i: int| 0 <= i < a.len() implies a[i] == b[i] by {
                    if i < k {
                        assert(a.take(k)[i] == b.take(k)[i]);
                    } else if k < i && i < end_a {
                        assert(a.subrange(k + 1, end_a)[i - k - 1] == b.subrange(k + 1, end_b)[i
                            - k - 1]);
                    } else if i >= end_a {
                        assert(a.skip(end_a)[i - end_a] == b.skip(end_b)[i - end_a]);
                    }
                }
            }
        }
    }
}

/// Every registered route stays resolvable with the correct parameters:
/// after routes whose patterns agree with each other have been registered,
/// in whatever order, a path that matches the pattern of one of them
/// resolves to that route's value, with the parameters that the pattern
/// binds, unless the same pattern was registered again later.
pub proof fn law_every_route_resolves<T>(
    routes: Seq<(Seq<char>, T)>,
    i: int,
    key: Seq<char>,
    raw: Seq<char>,
)
    requires
        all_agree(routes),
        key.len() == raw.len(),
        0 <= i < routes.len(),
        forall|j: int| i < j < routes.len() ==> routes[j].0 != routes[i].0,
        pattern_bindings(routes[i].0, key, raw, Map::empty()) is Some,
    ensures
        tree_lookup(register_all(None, routes), key, raw) == Some(
            (routes[i].1, pattern_bindings(routes[i].0, key, raw, Map::empty()).unwrap()),
        ),
{
    law_routes_resolve(routes, key, raw);
    lemma_last_match(routes, i, key, raw);
}

/// The last of `routes` that matches a path is the one that matches it,
/// where the patterns agree and the later ones are other patterns.
proof fn lemma_last_match<T>(routes: Seq<(Seq<char>, T)>, i: int, key: Seq<char>, raw: Seq<char>)
    requires
        all_agree(routes),
        0 <= i < routes.len(),
        forall|j: int| i < j < routes.len() ==> routes[j].0 != routes[i].0,
        pattern_bindings(routes[i].0, key, raw, Map::empty()) is Some,
    ensures
        last_match(routes, key, raw) == Some(
            (routes[i].1, pattern_bindings(routes[i].0, key, raw, Map::empty()).unwrap()),
        ),
    decreases routes.len(),
{
    let last = routes.last();
    if i < routes.len() - 1 {
        let earlier = routes.drop_last();
        lemma_last_match(earlier, i, key, raw);
        if pattern_bindings(last.0, key, raw, Map::empty()) is Some {
            lemma_one_match(last.0, routes[i].0, key, raw, Map::empty(), Map::empty());
        }
    }
}

} // verus!
