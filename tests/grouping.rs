use enumerate::annotation::{is_reserved_word, parse_attr, parse_payload, Annotation, Attribute, Token};
use enumerate::derive::{
    accessor_name, derive_enumerate, group_members, Failure, Member, TypeDescription, TypeKind,
};

fn ident(s: &str) -> Token {
    Token::Ident(s.to_string())
}

fn annotation(tokens: Vec<Token>) -> Attribute {
    Attribute { path: vec!["enumerate".to_string()], args: Some(tokens) }
}

fn member(name: &str, has_payload: bool, attrs: Vec<Attribute>) -> Member {
    Member { ident: name.to_string(), has_payload, attrs }
}

fn start(group: &str) -> Vec<Token> {
    vec![ident("start"), Token::Punct('='), ident(group)]
}

fn names(v: &[String]) -> Vec<&str> {
    v.iter().map(|s| s.as_str()).collect()
}

fn is_malformed(tokens: Vec<Token>) -> bool {
    parse_payload(&tokens).is_none()
}

#[test]
fn payload_forms() {
    assert!(matches!(parse_payload(&vec![]), Some(Annotation::Unannotated)));
    assert!(matches!(parse_payload(&vec![ident("skip")]), Some(Annotation::Skip)));
    assert!(matches!(parse_payload(&vec![ident("default")]), Some(Annotation::Default)));
    assert!(matches!(parse_payload(&start("rgb")), Some(Annotation::Start(g)) if g == "rgb"));
    assert!(matches!(parse_payload(&vec![ident("rgb")]), Some(Annotation::Single(g)) if g == "rgb"));
}

#[test]
fn malformed_payloads() {
    assert!(is_malformed(vec![ident("start")]));
    assert!(is_malformed(vec![ident("start"), Token::Punct('=')]));
    assert!(is_malformed(vec![ident("start"), Token::Punct(':'), ident("g")]));
    assert!(is_malformed(vec![ident("start"), Token::Punct('='), Token::Literal("1".to_string())]));
    assert!(is_malformed(vec![ident("skip"), Token::Punct('='), ident("g")]));
    assert!(is_malformed(vec![ident("a"), ident("b")]));
    assert!(is_malformed(vec![Token::Literal("\"x\"".to_string())]));
    assert!(is_malformed(vec![Token::Group(vec![ident("skip")])]));
    assert!(is_malformed(vec![ident("start"), Token::Punct('='), ident("g"), ident("h")]));
}

#[test]
fn keywords_are_not_group_names() {
    assert!(is_malformed(vec![ident("fn")]));
    assert!(is_malformed(vec![ident("_")]));
    assert!(is_malformed(start("struct")));
    assert!(matches!(parse_payload(&start("r#fn")), Some(Annotation::Start(g)) if g == "r#fn"));
}

#[test]
fn first_enumerate_attribute_decides() {
    let other = Attribute { path: vec!["doc".to_string()], args: Some(vec![ident("x"), ident("y")]) };
    let bare = Attribute { path: vec!["enumerate".to_string()], args: None };
    let attrs = vec![other, bare, annotation(vec![ident("skip")]), annotation(vec![ident("a"), ident("b")])];
    assert!(matches!(parse_attr(&attrs), Ok(Annotation::Skip)));
    assert!(matches!(parse_attr(&vec![]), Ok(Annotation::Unannotated)));
}

#[test]
fn skip_scenario_keeps_order() {
    let ms = vec![
        member("A", false, vec![]),
        member("B", false, vec![annotation(vec![ident("skip")])]),
        member("C", false, vec![]),
    ];
    let g = group_members(&ms).ok().expect("resolves");
    assert_eq!(names(&g.default_group), vec!["A", "C"]);
    assert!(g.named_groups.is_empty());
}

#[test]
fn start_groups_and_empty_default() {
    let ms = vec![
        member("Red", false, vec![annotation(start("rgb"))]),
        member("Green", false, vec![]),
        member("Blue", false, vec![]),
        member("Cyan", false, vec![annotation(start("cym"))]),
        member("Yellow", false, vec![]),
        member("Magenta", false, vec![]),
    ];
    let g = group_members(&ms).ok().expect("resolves");
    assert!(g.default_group.is_empty());
    assert_eq!(g.named_groups.len(), 2);
    assert_eq!(g.named_groups[0].name, "rgb");
    assert_eq!(names(&g.named_groups[0].members), vec!["Red", "Green", "Blue"]);
    assert_eq!(g.named_groups[1].name, "cym");
    assert_eq!(names(&g.named_groups[1].members), vec!["Cyan", "Yellow", "Magenta"]);
}

#[test]
fn default_member_amid_groups() {
    let ms = vec![
        member("Red", false, vec![annotation(start("rgb"))]),
        member("Green", false, vec![]),
        member("Blue", false, vec![]),
        member("Orange", false, vec![annotation(vec![ident("default")])]),
        member("Cyan", false, vec![annotation(start("cym"))]),
        member("Yellow", false, vec![]),
        member("Magenta", false, vec![]),
    ];
    let g = group_members(&ms).ok().expect("resolves");
    assert_eq!(names(&g.default_group), vec!["Orange"]);
    assert_eq!(names(&g.named_groups[0].members), vec!["Red", "Green", "Blue"]);
    assert_eq!(names(&g.named_groups[1].members), vec!["Cyan", "Yellow", "Magenta"]);
}

#[test]
fn single_keeps_active_group() {
    let ms = vec![
        member("A", false, vec![]),
        member("B", false, vec![annotation(start("g"))]),
        member("C", false, vec![annotation(vec![ident("h")])]),
        member("D", false, vec![]),
        member("E", false, vec![annotation(vec![ident("default")])]),
        member("F", false, vec![]),
    ];
    let g = group_members(&ms).ok().expect("resolves");
    assert_eq!(names(&g.default_group), vec!["A", "E"]);
    assert_eq!(g.named_groups[0].name, "g");
    assert_eq!(names(&g.named_groups[0].members), vec!["B", "D", "F"]);
    assert_eq!(g.named_groups[1].name, "h");
    assert_eq!(names(&g.named_groups[1].members), vec!["C"]);
}

#[test]
fn single_and_start_share_a_group() {
    let ms = vec![
        member("A", false, vec![annotation(vec![ident("g")])]),
        member("B", false, vec![]),
        member("C", false, vec![annotation(start("g"))]),
        member("D", false, vec![]),
    ];
    let g = group_members(&ms).ok().expect("resolves");
    assert_eq!(names(&g.default_group), vec!["B"]);
    assert_eq!(g.named_groups.len(), 1);
    assert_eq!(names(&g.named_groups[0].members), vec!["A", "C", "D"]);
}

#[test]
fn skipped_member_with_data_resolves() {
    let ms = vec![
        member("A", false, vec![]),
        member("B", true, vec![annotation(vec![ident("skip")])]),
        member("C", false, vec![]),
    ];
    let g = group_members(&ms).ok().expect("resolves");
    assert_eq!(names(&g.default_group), vec!["A", "C"]);
}

#[test]
fn member_with_data_fails() {
    let ms = vec![member("A", false, vec![]), member("B", true, vec![]), member("C", false, vec![])];
    let f = group_members(&ms).err().expect("fails");
    assert!(matches!(&f, Failure::PayloadMember(m) if m == "B"));
    assert_eq!(f.member().map(|m| m.as_str()), Some("B"));
    assert_eq!(f.message(), "Cannot enumerate enum with tuple or struct variant.");
    assert_eq!(f.hint().as_deref(), Some("Try skipping the variant with the `#[enumerate(skip)]` attribute."));
}

#[test]
fn member_with_data_fails_anywhere() {
    let first = vec![member("A", true, vec![annotation(vec![ident("g")])]), member("B", false, vec![])];
    assert!(matches!(group_members(&first).err(), Some(Failure::PayloadMember(m)) if m == "A"));
    let last = vec![member("A", false, vec![]), member("B", true, vec![annotation(vec![ident("default")])])];
    assert!(matches!(group_members(&last).err(), Some(Failure::PayloadMember(m)) if m == "B"));
}

#[test]
fn first_failure_wins() {
    let ms = vec![
        member("A", true, vec![]),
        member("B", false, vec![annotation(vec![ident("a"), ident("b")])]),
    ];
    assert!(matches!(group_members(&ms).err(), Some(Failure::PayloadMember(m)) if m == "A"));
    let ms = vec![
        member("A", false, vec![annotation(vec![ident("start")])]),
        member("B", true, vec![]),
    ];
    let f = group_members(&ms).err().expect("fails");
    assert!(matches!(&f, Failure::InvalidArgument(m, 0) if m == "A"));
    assert_eq!(f.message(), "Invalid argument.");
    assert!(f.hint().is_some());
}

#[test]
fn malformed_annotation_is_located() {
    let other = Attribute { path: vec!["doc".to_string()], args: Some(vec![]) };
    let ms = vec![member("A", false, vec![]), member("B", false, vec![other, annotation(vec![ident("skip"), ident("extra")])])];
    let f = group_members(&ms).err().expect("fails");
    assert!(matches!(&f, Failure::InvalidArgument(m, 1) if m == "B"));
    assert_eq!(f.annotation(), Some(1));
    assert!(matches!(parse_attr(&vec![annotation(start("rgb")), annotation(vec![ident("x"), ident("y")])]), Ok(Annotation::Start(g)) if g == "rgb"));
    assert!(matches!(parse_attr(&vec![annotation(vec![ident("start"), Token::Punct('='), ident("rgb"), ident("cym")])]), Err(0)));
}

#[test]
fn reserved_words() {
    assert!(is_reserved_word("fn"));
    assert!(is_reserved_word("Self"));
    assert!(is_reserved_word("_"));
    assert!(!is_reserved_word("default"));
    assert!(!is_reserved_word("skip"));
    assert!(!is_reserved_word("r#fn"));
    assert!(!is_reserved_word("rgb"));
}

#[test]
fn malformed_annotation_with_data_is_malformed() {
    let ms = vec![member("A", true, vec![annotation(vec![ident("skip"), ident("x")])])];
    assert!(matches!(group_members(&ms).err(), Some(Failure::InvalidArgument(m, 0)) if m == "A"));
}

#[test]
fn resolving_twice_is_identical() {
    let ms = vec![
        member("A", false, vec![annotation(start("g"))]),
        member("B", false, vec![]),
        member("C", false, vec![annotation(vec![ident("h")])]),
        member("D", false, vec![annotation(vec![ident("default")])]),
    ];
    let a = group_members(&ms).ok().expect("resolves");
    let b = group_members(&ms).ok().expect("resolves");
    assert_eq!(a.default_group, b.default_group);
    assert_eq!(a.named_groups.len(), b.named_groups.len());
    for (x, y) in a.named_groups.iter().zip(b.named_groups.iter()) {
        assert_eq!(x.name, y.name);
        assert_eq!(x.members, y.members);
    }
}

#[test]
fn empty_member_list() {
    let t = TypeDescription { name: "E".to_string(), kind: TypeKind::Enum, members: vec![] };
    let a = derive_enumerate(&t).ok().expect("resolves");
    assert_eq!(a.len(), 1);
    assert_eq!(a[0].name, "enumerate");
    assert!(a[0].members.is_empty());
}

#[test]
fn accessor_names() {
    assert_eq!(accessor_name("rgb"), "enumerate_rgb");
    assert_eq!(accessor_name(""), "enumerate_");
    assert_eq!(accessor_name("r#fn"), "enumerate_fn");
    assert_eq!(accessor_name("r"), "enumerate_r");
    let t = TypeDescription {
        name: "Color".to_string(),
        kind: TypeKind::Enum,
        members: vec![
            member("Red", false, vec![annotation(vec![ident("warm")])]),
            member("Blue", false, vec![annotation(vec![ident("cold")])]),
        ],
    };
    let a = derive_enumerate(&t).ok().expect("resolves");
    let got: Vec<&str> = a.iter().map(|x| x.name.as_str()).collect();
    assert_eq!(got, vec!["enumerate", "enumerate_warm", "enumerate_cold"]);
}

#[test]
fn not_an_enum_messages() {
    let t = TypeDescription { name: "S".to_string(), kind: TypeKind::Struct, members: vec![] };
    let f = derive_enumerate(&t).err().expect("fails");
    assert_eq!(f.message(), "Expected `enum` found `struct`.");
    assert!(f.hint().is_none());
    assert!(f.member().is_none());
    let t = TypeDescription { name: "U".to_string(), kind: TypeKind::Union, members: vec![] };
    assert_eq!(derive_enumerate(&t).err().expect("fails").message(), "Expected `enum` found `union`.");
}
