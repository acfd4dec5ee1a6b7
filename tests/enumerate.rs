use enumerate::annotation::{Attribute, Token};
use enumerate::derive::{
    derive_enumerate, Accessor, Failure, Member, TypeDescription,
    TypeKind,
};

fn ident(s: &str) -> Token {
    Token::Ident(s.to_string())
}

fn annotation(tokens: Vec<Token>) -> Attribute {
    Attribute { path: vec!["enumerate".to_string()], args: Some(tokens) }
}

fn plain(name: &str) -> Member {
    Member { ident: name.to_string(), has_payload: false, attrs: vec![] }
}

fn annotated(name: &str, tokens: Vec<Token>) -> Member {
    Member { ident: name.to_string(), has_payload: false, attrs: vec![annotation(tokens)] }
}

fn with_data(name: &str, tokens: Option<Vec<Token>>) -> Member {
    Member {
        ident: name.to_string(),
        has_payload: true,
        attrs: tokens.into_iter().map(annotation).collect(),
    }
}

fn skip() -> Vec<Token> {
    vec![ident("skip")]
}

fn start(group: &str) -> Vec<Token> {
    vec![ident("start"), Token::Punct('='), ident(group)]
}

fn enum_of(members: Vec<Member>) -> TypeDescription {
    TypeDescription { name: "Enum".to_string(), kind: TypeKind::Enum, members }
}

fn accessors_of(t: &TypeDescription) -> Vec<Accessor> {
    match derive_enumerate(t) {
        Ok(a) => a,
        Err(f) => panic!("unexpected failure: {}", f.message()),
    }
}

fn members_of<'a>(accessors: &'a [Accessor], name: &str) -> Vec<&'a str> {
    let a = accessors.iter().find(|a| a.name == name).expect("accessor is generated");
    a.members.iter().map(|m| m.as_str()).collect()
}

fn failure_of(t: &TypeDescription) -> Failure {
    match derive_enumerate(t) {
        Ok(_) => panic!("expected a failure"),
        Err(f) => f,
    }
}

#[test]
fn test_macro() {
    let t = enum_of(vec![plain("A"), plain("B"), plain("C")]);
    let a = accessors_of(&t);
    assert_eq!(members_of(&a, "enumerate"), vec!["A", "B", "C"]);
    assert_eq!(a.len(), 1);
}

#[test]
fn test_macro_skips_skipped_variant() {
    let t = enum_of(vec![plain("A"), annotated("_B", skip()), plain("C")]);
    let a = accessors_of(&t);
    assert_eq!(members_of(&a, "enumerate"), vec!["A", "C"]);
}

#[test]
fn test_macro_skips_skipped_variants() {
    let t = enum_of(vec![plain("A"), annotated("_B", skip()), annotated("_C", skip())]);
    let a = accessors_of(&t);
    assert_eq!(members_of(&a, "enumerate"), vec!["A"]);
}

#[test]
fn test_macro_skips_skipped_variant_with_data() {
    let t = enum_of(vec![plain("A"), with_data("_B", Some(skip())), plain("C")]);
    let a = accessors_of(&t);
    assert_eq!(members_of(&a, "enumerate").len(), 2);
    assert_eq!(members_of(&a, "enumerate"), vec!["A", "C"]);
}

#[test]
fn test_macro_skips_skipped_variants_with_data() {
    let t = enum_of(vec![
        with_data("_A", Some(skip())),
        with_data("_B", Some(skip())),
        plain("C"),
    ]);
    let a = accessors_of(&t);
    assert_eq!(members_of(&a, "enumerate").len(), 1);
    assert_eq!(members_of(&a, "enumerate"), vec!["C"]);
}

#[test]
fn test_compile_fail() {
    let mut s = enum_of(vec![plain("A")]);
    s.kind = TypeKind::Struct;
    assert!(matches!(failure_of(&s), Failure::NotAnEnum(TypeKind::Struct)));
    let mut u = enum_of(vec![plain("A")]);
    u.kind = TypeKind::Union;
    assert!(matches!(failure_of(&u), Failure::NotAnEnum(TypeKind::Union)));
    let data = enum_of(vec![plain("A"), with_data("B", None)]);
    assert!(matches!(failure_of(&data), Failure::PayloadMember(m) if m == "B"));
    let bad = enum_of(vec![annotated("A", vec![ident("a"), ident("b")])]);
    assert!(matches!(failure_of(&bad), Failure::InvalidArgument(m, 0) if m == "A"));
}

#[test]
fn test_multiple_enumerators() {
    let t = enum_of(vec![
        annotated("Red", vec![ident("rgb")]),
        annotated("Cyan", vec![ident("cym")]),
        annotated("Green", vec![ident("rgb")]),
        annotated("Yellow", vec![ident("cym")]),
        annotated("Blue", vec![ident("rgb")]),
        annotated("Magenta", vec![ident("cym")]),
    ]);
    let a = accessors_of(&t);
    assert_eq!(members_of(&a, "enumerate_rgb"), vec!["Red", "Green", "Blue"]);
    assert_eq!(members_of(&a, "enumerate_cym"), vec!["Cyan", "Yellow", "Magenta"]);
}

#[test]
fn test_multiple_enumerators_start() {
    let t = enum_of(vec![
        annotated("Red", start("rgb")),
        plain("Green"),
        plain("Blue"),
        annotated("Cyan", start("cym")),
        plain("Yellow"),
        plain("Magenta"),
    ]);
    let a = accessors_of(&t);
    assert_eq!(members_of(&a, "enumerate_rgb"), vec!["Red", "Green", "Blue"]);
    assert_eq!(members_of(&a, "enumerate_cym"), vec!["Cyan", "Yellow", "Magenta"]);
    assert!(members_of(&a, "enumerate").is_empty());
}

#[test]
fn test_override_start() {
    let t = enum_of(vec![
        annotated("Red", start("rgb")),
        plain("Green"),
        plain("Blue"),
        annotated("_Orange", skip()),
        annotated("Cyan", start("cym")),
        plain("Yellow"),
        plain("Magenta"),
    ]);
    let a = accessors_of(&t);
    assert_eq!(members_of(&a, "enumerate_rgb"), vec!["Red", "Green", "Blue"]);
    assert_eq!(members_of(&a, "enumerate_cym"), vec!["Cyan", "Yellow", "Magenta"]);
}

#[test]
fn test_default() {
    let t = enum_of(vec![
        annotated("Red", start("rgb")),
        plain("Green"),
        plain("Blue"),
        annotated("Orange", vec![ident("default")]),
        annotated("Cyan", start("cym")),
        plain("Yellow"),
        plain("Magenta"),
    ]);
    let a = accessors_of(&t);
    assert_eq!(members_of(&a, "enumerate_rgb"), vec!["Red", "Green", "Blue"]);
    assert_eq!(members_of(&a, "enumerate_cym"), vec!["Cyan", "Yellow", "Magenta"]);
    assert_eq!(members_of(&a, "enumerate"), vec!["Orange"]);
}
