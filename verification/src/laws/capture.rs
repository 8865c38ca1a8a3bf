//! What lookups bind parameters to: text without delimiters.

use crate::model::{child_index, lemma_child_from, tree_lookup, Bindings, NodeView};
use crate::segment::{is_delimiter, lemma_delimiter_pos_from, segment_len};
use crate::text::{lower_char, lowered};
use vstd::prelude::*;

verus! {

/// Whether `text` holds no delimiter.
pub open spec fn is_segment(text: Seq<char>) -> bool {
    forall|i: int| 0 <= i < text.len() ==> !is_delimiter(#[trigger] text[i])
}

/// Whether every parameter of `bound` is bound to text without delimiters.
pub open spec fn binds_segments(bound: Bindings) -> bool {
    forall|name: Seq<char>| bound.contains_key(name) ==> is_segment(#[trigger] bound[name])
}

/// Whether two texts of one length hold their delimiters at the same
/// positions.
pub open spec fn same_delimiters(key: Seq<char>, raw: Seq<char>) -> bool {
    &&& key.len() == raw.len()
    &&& forall|i: int| 0 <= i < key.len() ==> is_delimiter(#[trigger] key[i]) == is_delimiter(raw[i])
}

/// A lookup binds parameters to text without delimiters, where the text
/// that is compared with the tree and the text from which parameters are
/// cut hold their delimiters at the same positions.
pub proof fn lemma_lookup_binds_segments<T>(
    node: NodeView<T>,
    key: Seq<char>,
    raw: Seq<char>,
    bound: Bindings,
)
    requires
        same_delimiters(key, raw),
        binds_segments(bound),
        node.lookup(key, raw, bound) is Some,
    ensures
        binds_segments(node.lookup(key, raw, bound).unwrap().1),
    decreases node,
{
    let len = node.prefix.len() as int;
    let rest = key.skip(len);
    let raw_rest = raw.skip(len);
    if rest.len() > 0 {
        lemma_child_from(node.children, rest[0], 0);
        assert(same_delimiters(rest, raw_rest)) by {
            assert forall|i: int| 0 <= i < rest.len() implies is_delimiter(#[trigger] rest[i])
                == is_delimiter(raw_rest[i]) by {
                assert(rest[i] == key[len + i]);
            }
        }
        match child_index(node.children, rest[0]) {
            Some(j) => lemma_lookup_binds_segments(node.children[j], rest, raw_rest, bound),
            None => {
                let param = node.wildcard.unwrap();
                let n = segment_len(rest);
                lemma_delimiter_pos_from(rest, 0);
                let taken = bound.insert(param.name, raw_rest.take(n));
                assert(node.lookup(key, raw, bound) == param.lookup(rest, raw_rest, bound));
                assert(is_segment(raw_rest.take(n))) by {
                    assert forall|i: int| 0 <= i < n implies !is_delimiter(
                        #[trigger] raw_rest.take(n)[i],
                    ) by {
                        assert(is_delimiter(rest[i]) == is_delimiter(raw_rest[i]));
                    }
                }
                assert(same_delimiters(rest.skip(n), raw_rest.skip(n))) by {
                    assert forall|i: int| 0 <= i < rest.skip(n).len() implies is_delimiter(
                        #[trigger] rest.skip(n)[i],
                    ) == is_delimiter(raw_rest.skip(n)[i]) by {
                        assert(rest.skip(n)[i] == rest[n + i]);
                    }
                }
                lemma_lookup_binds_segments(*param.node, rest.skip(n), raw_rest.skip(n), taken);
            },
        }
    }
}

/// Captured text never holds a delimiter: whatever a lookup of a path
/// finds, it binds each parameter to text without `/` and `.`.
pub proof fn law_captured_text_is_a_segment<T>(tree: Option<NodeView<T>>, path: Seq<char>)
    requires
        tree_lookup(tree, path, path) is Some,
    ensures
        binds_segments(tree_lookup(tree, path, path).unwrap().1),
{
    lemma_lookup_binds_segments(tree.unwrap(), path, path, Map::empty());
}

/// Captured text never holds a delimiter, also where the lower-case form
/// of the path is compared with the tree.
pub proof fn law_captured_text_is_a_segment_in_any_case<T>(
    tree: Option<NodeView<T>>,
    path: Seq<char>,
)
    requires
        tree_lookup(tree, lowered(path), path) is Some,
    ensures
        binds_segments(tree_lookup(tree, lowered(path), path).unwrap().1),
{
    assert(same_delimiters(lowered(path), path)) by {
        assert forall|i: int| 0 <= i < path.len() implies is_delimiter(
            #[trigger] lowered(path)[i],
        ) == is_delimiter(path[i]) by {
            let c = path[i];
            assert(lowered(path)[i] == lower_char(c));
            if 'A' <= c && c <= 'Z' {
                assert((c as u8) + 32 != 47 && (c as u8) + 32 != 46);
            }
        }
    }
    lemma_lookup_binds_segments(tree.unwrap(), lowered(path), path, Map::empty());
}

} // verus!
