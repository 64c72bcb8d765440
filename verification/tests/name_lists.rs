use automata::names::{
    contains_name, copy_names, insert_name, insert_triple, merge_names, share_name,
};

fn s(text: &str) -> String {
    String::from(text)
}

#[test]
fn contains_name_finds_only_what_is_there() {
    let v = vec![s("a"), s("bc")];
    assert!(contains_name(&v, &s("a")));
    assert!(contains_name(&v, &s("bc")));
    assert!(!contains_name(&v, &s("b")));
    assert!(!contains_name(&Vec::new(), &s("a")));
}

#[test]
fn insert_name_appends_once() {
    let mut v = Vec::new();
    insert_name(&mut v, s("x"));
    insert_name(&mut v, s("y"));
    insert_name(&mut v, s("x"));
    assert_eq!(v, vec![s("x"), s("y")]);
}

#[test]
fn insert_triple_appends_once() {
    let mut v = Vec::new();
    insert_triple(&mut v, s("p"), s("a"), s("q"));
    insert_triple(&mut v, s("p"), s("a"), s("r"));
    insert_triple(&mut v, s("p"), s("a"), s("q"));
    insert_triple(&mut v, s("p"), s("b"), s("q"));
    assert_eq!(
        v,
        vec![
            (s("p"), s("a"), s("q")),
            (s("p"), s("a"), s("r")),
            (s("p"), s("b"), s("q")),
        ]
    );
}

#[test]
fn merge_names_adds_the_missing_names() {
    let mut acc = vec![s("x"), s("y")];
    merge_names(&mut acc, &vec![s("y"), s("z"), s("z"), s("x"), s("w")]);
    assert_eq!(acc, vec![s("x"), s("y"), s("z"), s("w")]);
}

#[test]
fn share_name_tells_whether_lists_meet() {
    assert!(share_name(&vec![s("a"), s("b")], &vec![s("c"), s("b")]));
    assert!(!share_name(&vec![s("a"), s("b")], &vec![s("c"), s("d")]));
    assert!(!share_name(&Vec::new(), &vec![s("c")]));
    assert!(!share_name(&vec![s("c")], &Vec::new()));
}

#[test]
fn copy_names_keeps_names_and_order() {
    let v = vec![s("b"), s("a"), s("b")];
    assert_eq!(copy_names(&v), v);
    assert_eq!(copy_names(&Vec::new()), Vec::<String>::new());
}
