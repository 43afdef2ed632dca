use nccl::{parse_string, parse_string_with, Pair, Scanner};

const CONFIG: &str = "server\n    domain\n        example.com\n        www.example.com\n    port\n        80\n        443\n    root\n        /var/www/html\n";

const CONFIG_DOS: &str = "server\r\n    domain\r\n        example.com\r\n        www.example.com\r\n    port\r\n        80\r\n        443\r\n    root\r\n        /var/www/html\r\n";

const LONG: &str = "# a longer document\nbool too\n    false\nhello\n    world\n        \"quoted: value\"\n        plain value with spaces\n    people\n        alice\n        bob\nnumbers\n    1\n    2\n    3\nlast\n    \"line one\\nline two\"\n";

const INHERIT: &str = "sandwich\n    meat\n        ham\n        turkey\n    bread\n        rye\nhello\n    world\n        alaska\n        hawaii\n";

const INHERIT2: &str = "sandwich\n    meat\n        bologne\nhello\n    world\n        panama\n";

#[test]
fn pair_new() {
    assert_eq!(Pair::new("hello"), Pair {
        key: "hello".into(),
        value: vec![]
    });
}

#[test]
fn pair_add() {
    let mut p = Pair::new("top_level");
    p.add("key");
    assert_eq!(p, Pair {
        key: "top_level".into(),
        value: vec![Pair {
            key: "key".into(),
            value: vec![]
        }]
    });
}

#[test]
fn pair_get() {
    let mut p = Pair::new("top_level");
    p.add("key");
    assert_eq!(p.get("key").unwrap(), &mut Pair {
        key: "key".into(),
        value: vec![]
    });
}

#[test]
fn pair_index() {
    let mut p = Pair::new("top_level");
    p.add("key");
    assert_eq!(p["key"], Pair {
        key: "key".into(),
        value: vec![]
    });
}

#[test]
fn pair_keys() {
    let mut p = Pair::new("top");
    p.add("numbers");
    p.index_mut("numbers").add("1");
    p.index_mut("numbers").add("2");
    p.index_mut("numbers").add("3");
    p.index_mut("numbers").add("4");
    p.index_mut("numbers").add("5");
    assert_eq!(p["numbers"].keys(), vec!["1", "2", "3", "4", "5"]);
}

#[test]
fn pair_value_parse() {
    let mut p = Pair::new("top");
    p.add("bools");
    p.index_mut("bools").add("true");
    assert!(p["bools"].parse::<bool>().unwrap());
}

#[test]
fn scanner_literal() {
    let mut s = Scanner::new("\"this: is neato\": burrito 64\n    yes.".into());
    s.scan_tokens().unwrap();
}

#[test]
#[should_panic]
fn error_key_not_found() {
    let mut p = Pair::new("jjj");
    p.get("jwiofiojwaef jio").unwrap();
}

#[test]
fn scan_file() {
    assert!(parse_string(CONFIG).is_ok());
}

#[test]
fn dos_unix_lines() {
    assert_eq!(parse_string(CONFIG), parse_string(CONFIG_DOS));
}

#[test]
fn string_escape() {
    let mut s = Scanner::new("\"\\\"hello\\\"\\n\"".into());
    assert_eq!(s.scan_tokens().unwrap()[0].lexeme, "\"hello\"\n");
}

#[test]
fn add_pair() {
    // create a new pair
    let mut p1 = Pair::new("happy birthday");

    p1.add("Bobby");
    p1.index_mut("Bobby").add("Today!");

    // we think Ron's birthday is the 3rd...
    p1.add("Ron");
    p1.index_mut("Ron").add("March 3rd");

    // whoops, we were wrong
    let mut p2 = Pair::new("Ron");
    p2.add("March 2nd");

    // there you go Ron, happy belated birthday
    p1.merge(p2);
}

#[test]
fn traverse_path() {
    let mut p = Pair::new("top");
    p.add_slice(&["a".into(), "b".into(), "c".into()]);
    p.traverse_path(&["a".into(), "b".into()]).add("happy");
    assert_eq!(p.traverse_path(&["a".into(), "b".into(), "happy".into()]), &mut Pair::new("happy"));
}

#[test]
fn add_slice() {
    let mut config = Pair::new("top_level");
    config.add("server");
    config.index_mut("server").add("domain");
    config.index_mut("server").add("port");
    config.index_mut("server").add("root");
    config.index_mut("server").index_mut("domain").add("example.com");
    config.index_mut("server").index_mut("domain").add("www.example.com");
    config.index_mut("server").index_mut("port").add("80");
    config.index_mut("server").index_mut("port").add("443");
    config.index_mut("server").index_mut("root").add("/var/www/html");

    config.add_slice(&["server".into(), "port".into(), "22".into()]);
    assert_eq!(config["server"]["port"].keys(), vec!["80", "443", "22"]);
}

#[test]
#[should_panic]
fn multiple_errors() {
    let mut s = Scanner::new("hey: momma\n   test\n\tjeii\n    oh no!\n".into());
    s.scan_tokens().unwrap();
}

#[test]
fn add_vec() {
    let mut p = Pair::new("__top_level__");
    p.add("a");
    p.add_slice(&["a".into(), "hello".into(), "world".into()]);
    p.add_slice(&["a".into(), "hello".into(), "world".into()]);
    assert_eq!(p["a"]["hello"].value.len(), 1);
}

#[test]
fn long() {
    let oh_dear = parse_string(LONG).unwrap();
    oh_dear.pretty_print();
}

#[test]
fn inherit2() {
    let schemas = parse_string(INHERIT).unwrap();
    let user = parse_string_with(INHERIT2, schemas).unwrap();
    assert_eq!(user["sandwich"]["meat"].value.len(), 3);
    assert_eq!(user["hello"]["world"].value.len(), 3);
}

#[test]
fn readme() {
    let config = parse_string(CONFIG).unwrap();
    let ports = config["server"]["port"].keys_as::<u32>().unwrap();
    assert_eq!(ports, vec![80, 443]);
}
