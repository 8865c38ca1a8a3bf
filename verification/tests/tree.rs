use router::params::Params;
use router::tree::{Node, Param, RouteError, Tree};

fn chars(text: &str) -> Vec<char> {
    text.chars().collect()
}

fn value_of<'a>(found: Option<(&'a i32, Params)>) -> Option<&'a i32> {
    found.map(|v| v.0)
}

fn assert_leaf(node: &Node<i32>, path: &str, value: Option<i32>) {
    assert_eq!(node.prefix(), &chars(path));
    assert_eq!(node.value(), value.as_ref());
    assert_eq!(node.children().len(), 0);
    assert!(node.wildcard().is_none());
}

#[test]
fn root_branch() {
    let mut tree = Tree::new();
    tree.add_path("a", 1);
    tree.add_path("b", 2);

    let root = tree.root().unwrap();
    assert_eq!(root.prefix(), &chars(""));
    assert_eq!(root.value(), None);
    assert!(root.wildcard().is_none());
    assert_eq!(root.children().len(), 2);
    assert_leaf(root.child('a').unwrap(), "a", Some(1));
    assert_leaf(root.child('b').unwrap(), "b", Some(2));
}

#[test]
fn branch() {
    let mut tree = Tree::new();

    tree.add_path("/foobar", 1);
    assert_leaf(tree.root().unwrap(), "/foobar", Some(1));

    tree.add_path("/foocar", 2);
    {
        let root = tree.root().unwrap();
        assert_eq!(root.prefix(), &chars("/foo"));
        assert_eq!(root.value(), None);
        assert!(root.wildcard().is_none());
        assert_eq!(root.children().len(), 2);
        assert_leaf(root.child('b').unwrap(), "bar", Some(1));
        assert_leaf(root.child('c').unwrap(), "car", Some(2));
    }

    tree.add_path("/otherwise", 3);
    let root = tree.root().unwrap();
    assert_eq!(root.prefix(), &chars("/"));
    assert_eq!(root.value(), None);
    assert!(root.wildcard().is_none());
    assert_eq!(root.children().len(), 2);
    let foo = root.child('f').unwrap();
    assert_eq!(foo.prefix(), &chars("foo"));
    assert_eq!(foo.value(), None);
    assert!(foo.wildcard().is_none());
    assert_eq!(foo.children().len(), 2);
    assert_leaf(foo.child('b').unwrap(), "bar", Some(1));
    assert_leaf(foo.child('c').unwrap(), "car", Some(2));
    assert_leaf(root.child('o').unwrap(), "otherwise", Some(3));
}

#[test]
fn append() {
    let mut tree = Tree::new();

    tree.add_path("/foo", 1);
    assert_leaf(tree.root().unwrap(), "/foo", Some(1));

    tree.add_path("/foobar", 2);
    let root = tree.root().unwrap();
    assert_eq!(root.prefix(), &chars("/foo"));
    assert_eq!(root.value(), Some(&1));
    assert!(root.wildcard().is_none());
    assert_eq!(root.children().len(), 1);
    assert_leaf(root.child('b').unwrap(), "bar", Some(2));
}

#[test]
fn wildcard() {
    let node = Node::new("/foo/:bar/more", Some(1));

    assert_eq!(node.prefix(), &chars("/foo/"));
    assert_eq!(node.value(), None);
    assert_eq!(node.children().len(), 0);
    let param = node.wildcard().unwrap();
    assert_eq!(param.name(), "bar");
    assert_leaf(param.node(), "/more", Some(1));
}

#[test]
fn param_find() {
    let param = Param::new(":id/prop", Some(1));
    assert_eq!(value_of(param.find("whatever/prop", Params::new())), Some(&1));

    let param = Param::new(":id", Some(1));
    assert_eq!(value_of(param.find("whatever", Params::new())), Some(&1));
}

#[test]
fn param_special_character() {
    let mut tree = Tree::new();
    tree.add_path("/foo/:id.json", 1);
    let mut params = Params::new();
    params.insert("id".to_string(), "42".to_string());
    assert_eq!(tree.find("/foo/42.json"), Some((&1, params)));
}

#[test]
fn find() {
    let mut tree = Tree::new();

    tree.add_path("/foobar", 1);
    assert_eq!(value_of(tree.find("/foobar")), Some(&1));
    assert_eq!(value_of(tree.find("/foo")), None);

    tree.add_path("/foocar", 2);
    assert_eq!(value_of(tree.find("/foobar")), Some(&1));
    assert_eq!(value_of(tree.find("/foocar")), Some(&2));
    assert_eq!(value_of(tree.find("/foo")), None);

    tree.add_path("/one/:id", 3);
    tree.add_path("/one/:id/more", 4);
    assert_eq!(value_of(tree.find("/one/42")), Some(&3));
    assert_eq!(value_of(tree.find("/one/13/more")), Some(&4));

    tree.add_path("/two/:id/more", 5);
    tree.add_path("/two/:id", 6);
    assert_eq!(value_of(tree.find("/two/13/more")), Some(&5));
    assert_eq!(value_of(tree.find("/two/42")), Some(&6));

    tree.add_path("/articles/:article/comments/:comment/author", 7);
    assert_eq!(value_of(tree.find("/articles/42/comments/13/author")), Some(&7));
    assert_eq!(value_of(tree.find("/articles/42/comments/13")), None);
}

#[test]
fn params() {
    let mut tree = Tree::new();
    tree.add_path("/a/:a/b/:b", 1);
    let mut params = Params::new();
    params.insert("a".to_string(), "12".to_string());
    params.insert("b".to_string(), "345".to_string());
    assert_eq!(tree.find("/a/12/b/345"), Some((&1, params)));
}

fn bound(pairs: &[(&str, &str)]) -> Params {
    let mut params = Params::new();
    for (name, value) in pairs {
        params.insert(name.to_string(), value.to_string());
    }
    params
}

#[test]
fn empty_tree_finds_nothing() {
    let tree: Tree<i32> = Tree::new();
    assert!(tree.root().is_none());
    assert_eq!(tree.find("/"), None);
    assert_eq!(tree.find(""), None);
}

#[test]
fn exact_match_round_trip() {
    let mut tree = Tree::new();
    tree.add_path("/user/:id", 1);
    tree.add_path("/about", 2);
    assert_eq!(tree.find("/about"), Some((&2, Params::new())));
    tree.add_path("/about/team", 3);
    assert_eq!(tree.find("/about/team"), Some((&3, Params::new())));
    assert_eq!(tree.find("/about"), Some((&2, Params::new())));
}

#[test]
fn prefix_factoring_in_either_order() {
    let mut tree = Tree::new();
    tree.add_path("/foobar", 1);
    tree.add_path("/foocar", 2);
    assert_eq!(value_of(tree.find("/foobar")), Some(&1));
    assert_eq!(value_of(tree.find("/foocar")), Some(&2));
    assert_eq!(value_of(tree.find("/foo")), None);

    let mut tree = Tree::new();
    tree.add_path("/foocar", 2);
    tree.add_path("/foobar", 1);
    assert_eq!(value_of(tree.find("/foobar")), Some(&1));
    assert_eq!(value_of(tree.find("/foocar")), Some(&2));
    assert_eq!(value_of(tree.find("/foo")), None);
}

#[test]
fn parameter_capture() {
    let mut tree = Tree::new();
    tree.add_path("/user/:id", 1);
    assert_eq!(tree.find("/user/42"), Some((&1, bound(&[("id", "42")]))));
    assert_eq!(tree.find("/user/"), None);
    assert_eq!(tree.find("/user/42/more"), None);
}

#[test]
fn overlapping_static_and_parameterized_routes() {
    let mut tree = Tree::new();
    tree.add_path("/two/:id/more", 5);
    tree.add_path("/two/:id", 6);
    assert_eq!(tree.find("/two/13/more"), Some((&5, bound(&[("id", "13")]))));
    assert_eq!(tree.find("/two/42"), Some((&6, bound(&[("id", "42")]))));

    let mut tree = Tree::new();
    tree.add_path("/two/:id", 6);
    tree.add_path("/two/:id/more", 5);
    assert_eq!(tree.find("/two/13/more"), Some((&5, bound(&[("id", "13")]))));
    assert_eq!(tree.find("/two/42"), Some((&6, bound(&[("id", "42")]))));
}

#[test]
fn routes_stay_through_later_splits() {
    let patterns = ["/a", "/ab", "/abc", "/abcd", "/abd", "/b/:x", "/b/:x/c"];
    let orders: [[usize; 7]; 3] =
        [[0, 1, 2, 3, 4, 5, 6], [6, 5, 4, 3, 2, 1, 0], [3, 0, 6, 2, 5, 1, 4]];
    for order in orders.iter() {
        let mut tree = Tree::new();
        for i in order.iter() {
            tree.add_path(patterns[*i], *i as i32);
        }
        assert_eq!(tree.find("/a"), Some((&0, Params::new())));
        assert_eq!(tree.find("/ab"), Some((&1, Params::new())));
        assert_eq!(tree.find("/abc"), Some((&2, Params::new())));
        assert_eq!(tree.find("/abcd"), Some((&3, Params::new())));
        assert_eq!(tree.find("/abd"), Some((&4, Params::new())));
        assert_eq!(tree.find("/b/7"), Some((&5, bound(&[("x", "7")]))));
        assert_eq!(tree.find("/b/7/c"), Some((&6, bound(&[("x", "7")]))));
        assert_eq!(tree.find("/abe"), None);
    }
}

#[test]
fn conflicting_parameter_names_are_refused() {
    let mut tree = Tree::new();
    tree.add_path("/x/:a", 1);
    assert!(tree.accepts("/x/:a/more"));
    assert!(!tree.accepts("/x/:b"));
    assert_eq!(tree.try_add_path("/x/:b", 2), Err(RouteError::ParamNameConflict));
    assert_eq!(
        RouteError::ParamNameConflict.message(),
        "cannot have different parameter names at the same position"
    );
    assert_eq!(tree.find("/x/7"), Some((&1, bound(&[("a", "7")]))));
    assert_eq!(tree.try_add_path("/x/:a/more", 3), Ok(()));
    assert_eq!(tree.find("/x/7/more"), Some((&3, bound(&[("a", "7")]))));
    assert!(!tree.accepts("/x/:b/more"));
    assert!(tree.accepts("/y/:b"));
}

#[test]
fn pattern_that_ends_inside_a_node_gets_the_upper_part() {
    let mut tree = Tree::new();
    tree.add_path("/foobar", 1);
    tree.add_path("/foo", 2);
    let root = tree.root().unwrap();
    assert_eq!(root.prefix(), &chars("/foo"));
    assert_eq!(root.value(), Some(&2));
    assert_eq!(root.children().len(), 1);
    assert_leaf(root.child('b').unwrap(), "bar", Some(1));
    assert_eq!(value_of(tree.find("/foo")), Some(&2));
    assert_eq!(value_of(tree.find("/foobar")), Some(&1));
}

#[test]
fn pattern_that_ends_with_a_node_is_stored_there() {
    let mut tree = Tree::new();
    tree.add_path("/foobar", 1);
    tree.add_path("/foocar", 2);
    tree.add_path("/foo", 3);
    assert_eq!(value_of(tree.find("/foo")), Some(&3));
    tree.add_path("/foo", 4);
    assert_eq!(value_of(tree.find("/foo")), Some(&4));
    assert_eq!(value_of(tree.find("/foobar")), Some(&1));
    assert_eq!(value_of(tree.find("/foocar")), Some(&2));
}

#[test]
fn literal_children_come_before_the_parameter() {
    let mut tree = Tree::new();
    tree.add_path("/u/:id", 1);
    assert_eq!(tree.find("/u/nancy"), Some((&1, bound(&[("id", "nancy")]))));
    tree.add_path("/u/new", 2);
    assert_eq!(tree.find("/u/new"), Some((&2, Params::new())));
    assert_eq!(tree.find("/u/42"), Some((&1, bound(&[("id", "42")]))));
    assert_eq!(tree.find("/u/nancy"), None);
}

#[test]
fn parameter_inside_a_node_hangs_below_its_text() {
    let mut tree = Tree::new();
    tree.add_path("/a/b", 1);
    tree.add_path("/a/:x", 2);
    let root = tree.root().unwrap();
    assert_eq!(root.prefix(), &chars("/a/b"));
    assert_eq!(root.wildcard().unwrap().name(), "x");
    assert_eq!(tree.find("/a/b"), Some((&1, Params::new())));
    assert_eq!(tree.find("/a/5"), None);
}

#[test]
fn parameter_may_capture_nothing() {
    let mut tree = Tree::new();
    tree.add_path("/a/:x/more", 1);
    assert_eq!(tree.find("/a//more"), Some((&1, bound(&[("x", "")]))));
}

#[test]
fn parameter_bound_twice_keeps_the_later_text() {
    let mut tree = Tree::new();
    tree.add_path("/:a/:a", 1);
    assert_eq!(tree.find("/1/2"), Some((&1, bound(&[("a", "2")]))));
}

#[test]
fn colon_inside_a_segment_is_literal() {
    let mut tree = Tree::new();
    tree.add_path("/a:b", 1);
    tree.add_path(":c", 2);
    assert_eq!(tree.find("/a:b"), Some((&1, Params::new())));
    assert_eq!(tree.find("/ax"), None);
    assert_eq!(tree.find(":c"), Some((&2, Params::new())));
}

#[test]
fn find_ignoring_case_lowers_the_structure_only() {
    let mut tree = Tree::new();
    tree.add_path("/test/:name", 1);
    assert_eq!(tree.find("/Test/FooBar"), None);
    assert_eq!(tree.find_ignoring_case("/Test/FooBar"), Some((&1, bound(&[("name", "FooBar")]))));
    assert_eq!(tree.find_ignoring_case("/TEST/x.Y"), None);
}

#[test]
fn node_level_registration_and_lookup() {
    let mut node = Node::new("/a", Some(1));
    assert!(node.accepts("/a/:x"));
    node.add_path("/a/:x", Some(2));
    assert!(!node.accepts("/a/:y"));
    assert_eq!(node.find("/a/9", Params::new()), Some((&2, bound(&[("x", "9")]))));
    assert_eq!(node.find("/a", bound(&[("k", "v")])), Some((&1, bound(&[("k", "v")]))));
}

fn permutations(n: usize) -> Vec<Vec<usize>> {
    if n == 0 {
        return vec![vec![]];
    }
    let mut all = Vec::new();
    for shorter in permutations(n - 1) {
        for at in 0..n {
            let mut longer = shorter.clone();
            longer.insert(at, n - 1);
            all.push(longer);
        }
    }
    all
}

#[test]
fn agreeing_routes_resolve_in_any_order() {
    let patterns = ["/two/:id/more", "/two/:id", "/two/:id/more/:x.json", "/three", "/t"];
    let orders = permutations(patterns.len());
    assert_eq!(orders.len(), 120);
    for order in orders.iter() {
        let mut tree = Tree::new();
        for i in order.iter() {
            assert!(tree.accepts(patterns[*i]));
            tree.add_path(patterns[*i], *i as i32);
        }
        assert_eq!(tree.find("/two/13/more"), Some((&0, bound(&[("id", "13")]))));
        assert_eq!(tree.find("/two/42"), Some((&1, bound(&[("id", "42")]))));
        assert_eq!(
            tree.find("/two/7/more/abc.json"),
            Some((&2, bound(&[("id", "7"), ("x", "abc")])))
        );
        assert_eq!(tree.find("/three"), Some((&3, Params::new())));
        assert_eq!(tree.find("/t"), Some((&4, Params::new())));
        assert_eq!(tree.find("/two"), None);
        assert_eq!(tree.find("/two/"), None);
        assert_eq!(tree.find("/two/7/more/abc"), None);
        assert_eq!(tree.find("/thre"), None);
    }
}
