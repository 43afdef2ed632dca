use nccl::pair::{all_converted, converted, render_line};
use nccl::{ErrorKind, NcclError, Pair};

fn leaf(key: &str) -> Pair {
    Pair { key: key.to_string(), value: vec![] }
}

fn node(key: &str, value: Vec<Pair>) -> Pair {
    Pair { key: key.to_string(), value }
}

fn path(keys: &[&str]) -> Vec<String> {
    keys.iter().map(|k| k.to_string()).collect()
}

#[test]
fn new_from_is_a_leaf() {
    assert_eq!(Pair::new_from("v"), leaf("v"));
    assert_eq!(Pair::new(""), leaf(""));
}

#[test]
fn add_does_not_deduplicate() {
    let mut p = Pair::new("top");
    p.add("x");
    p.add("y");
    p.add("x");
    assert_eq!(p, node("top", vec![leaf("x"), leaf("y"), leaf("x")]));
}

#[test]
fn push_appends_a_whole_tree() {
    let mut p = Pair::new("top");
    p.add("first");
    p.push(node("second", vec![leaf("inner")]));
    assert_eq!(p, node("top", vec![leaf("first"), node("second", vec![leaf("inner")])]));
}

#[test]
fn has_key_looks_at_direct_children_only() {
    let p = node("top", vec![node("a", vec![leaf("b")]), leaf("c")]);
    assert!(p.has_key("a"));
    assert!(p.has_key("c"));
    assert!(!p.has_key("b"));
    assert!(!p.has_key("top"));
    assert!(!p.has_key(""));
    assert!(!leaf("x").has_key("x"));
}

#[test]
fn has_path_follows_keys_downward() {
    let p = node("top", vec![node("a", vec![node("b", vec![leaf("c")])]), leaf("d")]);
    assert!(p.has_path(&[]));
    assert!(p.has_path(&["a"]));
    assert!(p.has_path(&["a", "b"]));
    assert!(p.has_path(&["a", "b", "c"]));
    assert!(p.has_path(&["d"]));
    assert!(!p.has_path(&["b"]));
    assert!(!p.has_path(&["a", "c"]));
    assert!(!p.has_path(&["a", "b", "c", "d"]));
    assert!(!p.has_path(&["d", "a"]));
}

#[test]
fn has_path_goes_by_the_first_child_with_a_key() {
    let p = node("top", vec![node("a", vec![leaf("x")]), node("a", vec![leaf("y")])]);
    assert!(p.has_path(&["a", "x"]));
    assert!(!p.has_path(&["a", "y"]));
}

#[test]
fn index_gives_the_first_child_with_the_key() {
    let p = node("top", vec![node("a", vec![leaf("x")]), node("a", vec![leaf("y")])]);
    assert_eq!(p["a"], node("a", vec![leaf("x")]));
}

#[test]
fn index_takes_the_keys_that_keys_gives() {
    let p = node("top", vec![node("a", vec![leaf("x")]), node("b", vec![leaf("y")])]);
    let found: Vec<Option<String>> = p.keys().iter().map(|k| p[k].value()).collect();
    assert_eq!(found, vec![Some("x".to_string()), Some("y".to_string())]);
}

#[test]
fn index_mut_changes_the_child_in_place() {
    let mut p = node("top", vec![leaf("a"), leaf("b")]);
    p.index_mut("b").add("c");
    p.index_mut("b").key = "renamed".to_string();
    assert_eq!(p, node("top", vec![leaf("a"), node("renamed", vec![leaf("c")])]));
}

#[test]
fn get_finds_or_reports() {
    let mut p = node("top", vec![leaf("a")]);
    p.get("a").unwrap().add("b");
    assert_eq!(p, node("top", vec![node("a", vec![leaf("b")])]));
    assert_eq!(
        p.get("zz").unwrap_err(),
        NcclError::new(ErrorKind::KeyNotFound, "Could not find key: zz", 0)
    );
    assert_eq!(
        Pair::new("jjj").get("zz").unwrap_err(),
        NcclError::new(ErrorKind::KeyNotFound, "Pair does not have key: zz", 0)
    );
}

#[test]
fn get_ref_finds_or_reports() {
    let p = node("top", vec![node("a", vec![leaf("x")]), node("a", vec![leaf("y")])]);
    assert_eq!(p.get_ref("a").unwrap(), &node("a", vec![leaf("x")]));
    assert_eq!(
        p.get_ref("x").unwrap_err(),
        NcclError::new(ErrorKind::KeyNotFound, "Could not find key: x", 0)
    );
    assert_eq!(
        leaf("top").get_ref("").unwrap_err(),
        NcclError::new(ErrorKind::KeyNotFound, "Pair does not have key: ", 0)
    );
}

#[test]
fn add_slice_creates_what_is_missing() {
    let mut p = Pair::new("top");
    p.add_slice(&path(&["a", "b", "c"]));
    assert_eq!(p, node("top", vec![node("a", vec![node("b", vec![leaf("c")])])]));
    p.add_slice(&path(&["a", "x"]));
    assert_eq!(
        p,
        node("top", vec![node("a", vec![node("b", vec![leaf("c")]), leaf("x")])])
    );
}

#[test]
fn add_slice_of_nothing_changes_nothing() {
    let mut p = node("top", vec![leaf("a")]);
    p.add_slice(&[]);
    assert_eq!(p, node("top", vec![leaf("a")]));
}

#[test]
fn add_slice_twice_is_add_slice_once() {
    let mut once = node("top", vec![leaf("z"), node("a", vec![leaf("q")])]);
    once.add_slice(&path(&["a", "hello", "world"]));
    let mut twice = once.clone();
    twice.add_slice(&path(&["a", "hello", "world"]));
    assert_eq!(twice, once);
    assert_eq!(
        once,
        node(
            "top",
            vec![leaf("z"), node("a", vec![leaf("q"), node("hello", vec![leaf("world")])])]
        )
    );
}

#[test]
fn add_slice_goes_into_the_first_child_with_a_key() {
    let mut p = node("top", vec![leaf("a"), leaf("a")]);
    p.add_slice(&path(&["a", "b"]));
    assert_eq!(p, node("top", vec![node("a", vec![leaf("b")]), leaf("a")]));
}

#[test]
fn traverse_path_returns_the_node_reached() {
    let mut p = Pair::new("top");
    p.traverse_path(&path(&["a", "b"])).add("c");
    assert_eq!(p, node("top", vec![node("a", vec![node("b", vec![leaf("c")])])]));
    assert_eq!(p.traverse_path(&[]).key, "top");
    assert_eq!(p.traverse_path(&path(&["a"])), &mut node("a", vec![node("b", vec![leaf("c")])]));
}

#[test]
fn merge_overrides_by_key() {
    let mut p1 = Pair::new("happy birthday");
    p1.add("Bobby");
    p1.index_mut("Bobby").add("Today!");
    p1.add("Ron");
    p1.index_mut("Ron").add("March 3rd");
    p1.index_mut("Ron").add("or so");
    let mut p2 = Pair::new("Ron");
    p2.add("March 2nd");
    p1.merge(p2);
    assert_eq!(
        p1,
        node(
            "happy birthday",
            vec![node("Bobby", vec![leaf("Today!")]), node("Ron", vec![leaf("March 2nd")])]
        )
    );
}

#[test]
fn merge_overrides_the_first_child_with_the_key() {
    let mut p = node("top", vec![node("k", vec![leaf("1")]), node("k", vec![leaf("2")])]);
    p.merge(node("k", vec![leaf("3")]));
    assert_eq!(p, node("top", vec![node("k", vec![leaf("3")]), node("k", vec![leaf("2")])]));
}

#[test]
fn merge_appends_what_is_already_there() {
    let mut p = node("top", vec![leaf("x"), node("k", vec![leaf("1")])]);
    p.merge(node("k", vec![leaf("1")]));
    assert_eq!(
        p,
        node("top", vec![leaf("x"), node("k", vec![leaf("1")]), node("k", vec![leaf("1")])])
    );
}

#[test]
fn value_needs_exactly_one_child() {
    assert_eq!(leaf("k").value(), None);
    assert_eq!(node("k", vec![leaf("v")]).value(), Some("v".to_string()));
    assert_eq!(node("k", vec![leaf("v"), leaf("w")]).value(), None);
}

#[test]
fn value_or_falls_back() {
    assert_eq!(leaf("k").value_or("d".to_string()), "d");
    assert_eq!(node("k", vec![leaf("v")]).value_or("d".to_string()), "v");
    assert_eq!(node("k", vec![leaf("v"), leaf("w")]).value_or("d".to_string()), "d");
}

#[test]
fn keys_are_in_insertion_order() {
    assert_eq!(leaf("k").keys(), Vec::<String>::new());
    assert_eq!(
        node("k", vec![leaf("b"), node("a", vec![leaf("z")]), leaf("b")]).keys(),
        vec!["b", "a", "b"]
    );
}

#[test]
fn keys_as_converts_every_key() {
    let p = node("port", vec![leaf("80"), leaf("443")]);
    assert_eq!(p.keys_as::<i64>().unwrap(), vec![80, 443]);
    assert_eq!(p.keys_as::<String>().unwrap(), vec!["80", "443"]);
    assert_eq!(leaf("none").keys_as::<u8>().unwrap(), Vec::<u8>::new());
}

#[test]
fn keys_as_gives_all_or_nothing() {
    let p = node("port", vec![leaf("80"), leaf("https"), leaf("443")]);
    assert_eq!(
        p.keys_as::<u32>().unwrap_err(),
        NcclError::new(ErrorKind::ConversionError, "Could not convert to T", 0)
    );
    let p = node("port", vec![leaf("80"), leaf("443")]);
    assert_eq!(
        p.keys_as::<u8>().unwrap_err(),
        NcclError::new(ErrorKind::ConversionError, "Could not convert to T", 0)
    );
}

#[test]
fn parse_converts_the_only_value() {
    assert_eq!(node("n", vec![leaf("-12")]).parse::<i32>().unwrap(), -12);
    assert!(!node("b", vec![leaf("false")]).parse::<bool>().unwrap());
}

#[test]
fn parse_needs_exactly_one_value_that_converts() {
    let expected = NcclError::new(ErrorKind::ConversionError, "could not parse value", 0);
    assert_eq!(leaf("n").parse::<i32>().unwrap_err(), expected);
    assert_eq!(node("n", vec![leaf("1"), leaf("2")]).parse::<i32>().unwrap_err(), expected);
    assert_eq!(node("n", vec![leaf("one")]).parse::<i32>().unwrap_err(), expected);
}

#[test]
fn converted_passes_the_value_on() {
    assert_eq!(converted(Some(5u8)).unwrap(), 5);
    assert_eq!(
        converted::<u8>(None).unwrap_err(),
        NcclError::new(ErrorKind::ConversionError, "could not parse value", 0)
    );
}

#[test]
fn all_converted_wants_every_value() {
    assert_eq!(all_converted(vec![Some(1), Some(2), Some(3)]).unwrap(), vec![1, 2, 3]);
    assert_eq!(all_converted::<u8>(vec![]).unwrap(), Vec::<u8>::new());
    assert_eq!(
        all_converted(vec![Some(1), None, Some(3)]).unwrap_err(),
        NcclError::new(ErrorKind::ConversionError, "Could not convert to T", 0)
    );
}

#[test]
fn render_line_is_indentation_key_and_line_feed() {
    assert_eq!(render_line("", "k"), "k\n");
    assert_eq!(render_line("    ", "k"), "    k\n");
    assert_eq!(render_line("        ", "\"k\""), "        \"k\"\n");
}

#[test]
fn pretty_print_dumps_depth_first() {
    let p = node(
        "__top_level__",
        vec![
            node("server", vec![node("port", vec![leaf("80"), leaf("443")]), leaf("root")]),
            leaf("say \"hi\""),
        ],
    );
    assert_eq!(
        p.pretty_print(),
        "\"__top_level__\"\n    \"server\"\n        \"port\"\n            \"80\"\n            \"443\"\n        \"root\"\n    \"say \\\"hi\\\"\"\n"
    );
    assert_eq!(leaf("x").pretty_print(), "\"x\"\n");
}

#[test]
fn clone_copies_the_whole_tree() {
    let p = node("top", vec![node("a", vec![leaf("b")]), leaf("c")]);
    let q = p.clone();
    assert_eq!(q, node("top", vec![node("a", vec![leaf("b")]), leaf("c")]));
    assert_eq!(p, q);
}

#[test]
fn equality_is_of_keys_children_and_order() {
    assert_ne!(leaf("a"), leaf("b"));
    assert_ne!(node("k", vec![leaf("a")]), leaf("k"));
    assert_ne!(node("k", vec![leaf("a"), leaf("b")]), node("k", vec![leaf("b"), leaf("a")]));
    assert_ne!(
        node("k", vec![node("a", vec![leaf("x")])]),
        node("k", vec![node("a", vec![leaf("y")])])
    );
    assert_eq!(
        node("k", vec![node("a", vec![leaf("x")])]),
        node("k", vec![node("a", vec![leaf("x")])])
    );
}

#[test]
fn error_new_keeps_its_parts() {
    let e = NcclError::new(ErrorKind::MultipleValues, "several", 3);
    assert_eq!(e.kind, ErrorKind::MultipleValues);
    assert_eq!(e.message, "several");
    assert_eq!(e.line, 3);
    assert_eq!(e.clone(), e);
    assert_ne!(e, NcclError::new(ErrorKind::ConversionError, "several", 3));
}
