use radix_router::frozen::{ConstNode, MatchError};
use radix_router::params::Params;
use radix_router::tree::{InsertError, Node};
use radix_router::RouteMethod;

fn build(patterns: &[&str]) -> ConstNode {
    let mut root = Node::new();
    for p in patterns {
        root.insert(p.as_bytes()).unwrap();
    }
    root.freeze()
}

fn pairs(p: &Params) -> Vec<(Vec<u8>, Vec<u8>)> {
    let mut out = Vec::new();
    for i in 0..p.len() {
        out.push((p.name_at(i).clone(), p.value_at(i).clone()));
    }
    out
}

fn pair(name: &str, value: &str) -> (Vec<u8>, Vec<u8>) {
    (name.as_bytes().to_vec(), value.as_bytes().to_vec())
}

#[test]
fn static_route_matches_exactly() {
    let t = build(&["/hello"]);
    assert_eq!(pairs(&t.at(b"/hello").unwrap()), vec![]);
    assert_eq!(t.at(b"/hell"), Err(MatchError));
    assert_eq!(t.at(b"/hello2"), Err(MatchError));
    assert_eq!(t.at(b""), Err(MatchError));
}

#[test]
fn param_binding_extracted() {
    let t = build(&["/users/:id"]);
    assert_eq!(pairs(&t.at(b"/users/42").unwrap()), vec![pair("id", "42")]);
    assert_eq!(t.at(b"/users"), Err(MatchError));
    assert_eq!(t.at(b"/users/42/x"), Err(MatchError));
}

#[test]
fn several_params_in_path_order() {
    let t = build(&["/users/:id/posts/:post"]);
    let p = t.at(b"/users/7/posts/99").unwrap();
    assert_eq!(pairs(&p), vec![pair("id", "7"), pair("post", "99")]);
}

#[test]
fn static_and_wildcard_siblings_conflict() {
    let mut root = Node::new();
    root.insert(b"/users/me").unwrap();
    assert_eq!(root.insert(b"/users/:id"), Err(InsertError::Conflict));

    let mut root2 = Node::new();
    root2.insert(b"/users/:id").unwrap();
    assert_eq!(root2.insert(b"/users/me"), Err(InsertError::Conflict));
}

#[test]
fn catch_all_consumes_separators() {
    let t = build(&["/files/*path"]);
    assert_eq!(
        pairs(&t.at(b"/files/a/b/c.txt").unwrap()),
        vec![pair("path", "a/b/c.txt")]
    );
    assert_eq!(pairs(&t.at(b"/files/").unwrap()), vec![pair("path", "")]);
    assert_eq!(t.at(b"/files"), Err(MatchError));
}

#[test]
fn param_stops_at_separator() {
    let t = build(&["/users/:id/profile"]);
    assert_eq!(
        pairs(&t.at(b"/users/42/profile").unwrap()),
        vec![pair("id", "42")]
    );
    assert_eq!(t.at(b"/users/42/43/profile"), Err(MatchError));
}

#[test]
fn duplicate_param_name_rejected() {
    let mut root = Node::new();
    assert_eq!(
        root.insert(b"/a/:x/:x"),
        Err(InsertError::DuplicateParamName)
    );
}

#[test]
fn misplaced_catch_all_rejected() {
    let mut root = Node::new();
    assert_eq!(root.insert(b"/a/*rest/b"), Err(InsertError::CatchAllNotLast));
}

#[test]
fn empty_wildcard_name_rejected() {
    let mut root = Node::new();
    assert_eq!(root.insert(b"/a/:"), Err(InsertError::EmptyWildcardName));
    assert_eq!(root.insert(b"/a/:/b"), Err(InsertError::EmptyWildcardName));
    assert_eq!(root.insert(b"/a/*"), Err(InsertError::EmptyWildcardName));
}

#[test]
fn wildcard_inside_segment_rejected() {
    let mut root = Node::new();
    assert_eq!(root.insert(b"/a:b"), Err(InsertError::InvalidWildcard));
    assert_eq!(root.insert(b"/x*y"), Err(InsertError::InvalidWildcard));
}

#[test]
fn rejected_pattern_leaves_tree_untouched() {
    let t = {
        let mut root = Node::new();
        root.insert(b"/ok").unwrap();
        assert!(root.insert(b"/bad/:x/:x").is_err());
        root.freeze()
    };
    assert_eq!(pairs(&t.at(b"/ok").unwrap()), vec![]);
    assert_eq!(t.at(b"/bad/1/2"), Err(MatchError));
}

#[test]
fn merge_later_value_wins() {
    let mut a = Params::new();
    a.push(b"id".to_vec(), b"1".to_vec());
    let mut b = Params::new();
    b.push(b"id".to_vec(), b"2".to_vec());
    b.push(b"name".to_vec(), b"x".to_vec());
    a.merge(b);
    assert_eq!(pairs(&a), vec![pair("id", "2"), pair("name", "x")]);
}

#[test]
fn merge_keeps_order_of_distinct_names() {
    let mut a = Params::new();
    a.push(b"one".to_vec(), b"1".to_vec());
    a.push(b"two".to_vec(), b"2".to_vec());
    let mut b = Params::new();
    b.push(b"three".to_vec(), b"3".to_vec());
    a.merge(b);
    assert_eq!(
        pairs(&a),
        vec![pair("one", "1"), pair("two", "2"), pair("three", "3")]
    );
}

#[test]
fn merge_with_empty_changes_nothing() {
    let mut a = Params::new();
    a.push(b"k".to_vec(), b"v".to_vec());
    a.merge(Params::new());
    assert_eq!(pairs(&a), vec![pair("k", "v")]);

    let mut e = Params::new();
    let mut b = Params::new();
    b.push(b"k".to_vec(), b"v".to_vec());
    e.merge(b);
    assert_eq!(pairs(&e), vec![pair("k", "v")]);
}

#[test]
fn get_returns_latest_binding() {
    let mut p = Params::new();
    p.push(b"k".to_vec(), b"old".to_vec());
    p.push(b"k".to_vec(), b"new".to_vec());
    assert_eq!(p.get(&b"k".to_vec()).unwrap(), &b"new".to_vec());
    assert_eq!(p.get(&b"missing".to_vec()), None);
}

#[test]
fn repeated_matches_agree() {
    let t = build(&["/users/:id", "/about"]);
    let first = t.at(b"/users/9");
    let second = t.at(b"/users/9");
    assert_eq!(
        first.as_ref().map(pairs).ok(),
        second.as_ref().map(pairs).ok()
    );
    assert_eq!(t.at(b"/nope"), Err(MatchError));
    assert_eq!(t.at(b"/nope"), Err(MatchError));
}

#[test]
fn insertion_order_does_not_change_matches() {
    let one = build(&["/a", "/ab", "/abc", "/b/:x/tail", "/c/*rest", "/d", "/dd"]);
    let two = build(&["/dd", "/c/*rest", "/abc", "/b/:x/tail", "/ab", "/d", "/a"]);
    let probes: &[&[u8]] = &[
        b"/a", b"/ab", b"/abc", b"/abcd", b"/b/zz/tail", b"/b/zz", b"/b",
        b"/c/one/two", b"/c/", b"/d", b"/dd", b"/", b"",
    ];
    for probe in probes {
        let r1 = one.at(probe).map(|p| pairs(&p));
        let r2 = two.at(probe).map(|p| pairs(&p));
        assert_eq!(r1, r2);
    }
}

#[test]
fn prefix_split_keeps_both_routes() {
    let t = build(&["/ab", "/a"]);
    assert_eq!(pairs(&t.at(b"/a").unwrap()), vec![]);
    assert_eq!(pairs(&t.at(b"/ab").unwrap()), vec![]);
    assert_eq!(t.at(b"/abc"), Err(MatchError));

    let t2 = build(&["/a", "/ab"]);
    assert_eq!(pairs(&t2.at(b"/a").unwrap()), vec![]);
    assert_eq!(pairs(&t2.at(b"/ab").unwrap()), vec![]);
}

#[test]
fn split_point_is_not_an_endpoint() {
    let t = build(&["/user", "/utmost"]);
    assert_eq!(t.at(b"/u"), Err(MatchError));
    assert!(t.at(b"/user").is_ok());
    assert!(t.at(b"/utmost").is_ok());
}

#[test]
fn reregistration_is_allowed() {
    let mut root = Node::new();
    root.insert(b"/twice").unwrap();
    root.insert(b"/twice").unwrap();
    let t = root.freeze();
    assert!(t.at(b"/twice").is_ok());
}

#[test]
fn root_level_wildcards() {
    let t = build(&[":x"]);
    assert_eq!(pairs(&t.at(b"abc").unwrap()), vec![pair("x", "abc")]);
    assert_eq!(t.at(b"a/b"), Err(MatchError));

    let c = build(&["*all"]);
    assert_eq!(pairs(&c.at(b"a/b").unwrap()), vec![pair("all", "a/b")]);
    assert_eq!(pairs(&c.at(b"").unwrap()), vec![pair("all", "")]);
}

#[test]
fn differing_wildcards_conflict() {
    let mut root = Node::new();
    root.insert(b"/u/:a").unwrap();
    assert_eq!(root.insert(b"/u/:b"), Err(InsertError::Conflict));
    assert_eq!(root.insert(b"/u/*a"), Err(InsertError::Conflict));
    root.insert(b"/u/:a/deeper").unwrap();
}

#[test]
fn shared_param_with_two_continuations() {
    let t = build(&["/u/:id/a", "/u/:id/b"]);
    assert_eq!(pairs(&t.at(b"/u/1/a").unwrap()), vec![pair("id", "1")]);
    assert_eq!(pairs(&t.at(b"/u/2/b").unwrap()), vec![pair("id", "2")]);
    assert_eq!(t.at(b"/u/1/c"), Err(MatchError));
    assert_eq!(t.at(b"/u/1"), Err(MatchError));
}

#[test]
fn empty_pattern_matches_empty_path() {
    let t = build(&[""]);
    assert_eq!(pairs(&t.at(b"").unwrap()), vec![]);
    assert_eq!(t.at(b"/"), Err(MatchError));
}

#[test]
fn many_siblings_dispatch_by_first_byte() {
    let t = build(&["/a", "/b", "/c", "/d/e", "/d/f", "/a/x"]);
    for ok in [&b"/a"[..], b"/b", b"/c", b"/d/e", b"/d/f", b"/a/x"] {
        assert!(t.at(ok).is_ok(), "expected a match for {:?}", ok);
    }
    assert_eq!(t.at(b"/d"), Err(MatchError));
    assert_eq!(t.at(b"/e"), Err(MatchError));
}

#[test]
fn route_method_variants_are_distinct() {
    assert_eq!(RouteMethod::GET, RouteMethod::GET);
    assert_ne!(RouteMethod::GET, RouteMethod::POST);
    let all = [
        RouteMethod::GET,
        RouteMethod::POST,
        RouteMethod::PUT,
        RouteMethod::DELETE,
        RouteMethod::HEAD,
        RouteMethod::OPTIONS,
        RouteMethod::PATCH,
    ];
    assert_eq!(all.len(), 7);
}

#[test]
fn siblings_reorder_by_priority() {
    let mut root = Node::new();
    root.insert(b"/a").unwrap();
    root.insert(b"/b").unwrap();
    root.insert(b"/b").unwrap();
    assert_eq!(root.children.len(), 2);
    assert_eq!(root.children[0].prefix, b"b".to_vec());
    assert_eq!(root.indices, vec![b'b', b'a']);
    assert!(root.children[0].priority >= root.children[1].priority);
    let t = root.freeze();
    assert!(t.at(b"/a").is_ok());
    assert!(t.at(b"/b").is_ok());
}

#[test]
fn priority_counts_routes_through_root() {
    let mut root = Node::new();
    assert_eq!(root.priority, 0);
    root.insert(b"/a").unwrap();
    assert_eq!(root.priority, 1);
    root.insert(b"/b").unwrap();
    assert_eq!(root.priority, 2);
    assert!(root.insert(b"/:x").is_err());
    assert_eq!(root.priority, 2);
}
