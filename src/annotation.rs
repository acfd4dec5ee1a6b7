//! Annotation syntax: `skip`, `default`, `start = <ident>`, or a bare group name.
use vstd::prelude::*;
use vstd::string::*;

verus! {

/// One token of an annotation payload, as the host toolchain segments it.
pub enum Token {
    /// An identifier or keyword token, by its text as the host lexed it
    /// (a raw identifier keeps its `r#`).
    Ident(String),
    /// A single punctuation character.
    Punct(char),
    /// A literal, by its text.
    Literal(String),
    /// A delimited group, with the tokens inside it.
    Group(Vec<Token>),
}

/// One attribute on a member: its path segments, and the tokens inside the
/// delimited group that follows the path, if one does.
pub struct Attribute {
    pub path: Vec<String>,
    pub args: Option<Vec<Token>>,
}

/// The meaning of a member's annotation.
pub enum Annotation {
    /// No annotation: the member joins the active group, or the default one.
    Unannotated,
    /// Excluded from every accessor.
    Skip,
    /// Placed in the default group; the active group is left as it is.
    Default,
    /// Placed in the named group, which becomes the active group.
    Start(String),
    /// Placed in the named group only; the active group is left as it is.
    Single(String),
}

/// The mathematical model of an [`Annotation`].
pub enum Ann {
    Unannotated,
    Skip,
    Default,
    Start(Seq<char>),
    Single(Seq<char>),
}

impl View for Annotation {
    type V = Ann;

    open spec fn view(&self) -> Ann {
        match self {
            Annotation::Unannotated => Ann::Unannotated,
            Annotation::Skip => Ann::Skip,
            Annotation::Default => Ann::Default,
            Annotation::Start(g) => Ann::Start(g@),
            Annotation::Single(g) => Ann::Single(g@),
        }
    }
}

/// Words that cannot stand as an identifier: the placeholder `_` and the
/// reserved words of Rust, strict and reserved for later use.
pub open spec fn is_reserved(s: Seq<char>) -> bool {
    ||| s == "_"@
    ||| s == "abstract"@
    ||| s == "as"@
    ||| s == "become"@
    ||| s == "box"@
    ||| s == "break"@
    ||| s == "const"@
    ||| s == "continue"@
    ||| s == "crate"@
    ||| s == "do"@
    ||| s == "else"@
    ||| s == "enum"@
    ||| s == "extern"@
    ||| s == "false"@
    ||| s == "final"@
    ||| s == "fn"@
    ||| s == "for"@
    ||| s == "if"@
    ||| s == "impl"@
    ||| s == "in"@
    ||| s == "let"@
    ||| s == "loop"@
    ||| s == "macro"@
    ||| s == "match"@
    ||| s == "mod"@
    ||| s == "move"@
    ||| s == "mut"@
    ||| s == "override"@
    ||| s == "priv"@
    ||| s == "pub"@
    ||| s == "ref"@
    ||| s == "return"@
    ||| s == "Self"@
    ||| s == "self"@
    ||| s == "static"@
    ||| s == "struct"@
    ||| s == "super"@
    ||| s == "trait"@
    ||| s == "true"@
    ||| s == "type"@
    ||| s == "typeof"@
    ||| s == "unsafe"@
    ||| s == "unsized"@
    ||| s == "use"@
    ||| s == "virtual"@
    ||| s == "where"@
    ||| s == "while"@
    ||| s == "yield"@
}

/// Whether the text is one of the reserved words of [`is_reserved`].
pub fn is_reserved_word(s: &str) -> (r: bool)
    ensures
        r == is_reserved(s@),
{
    text_is(s, "_")
        || text_is(s, "abstract")
        || text_is(s, "as")
        || text_is(s, "become")
        || text_is(s, "box")
        || text_is(s, "break")
        || text_is(s, "const")
        || text_is(s, "continue")
        || text_is(s, "crate")
        || text_is(s, "do")
        || text_is(s, "else")
        || text_is(s, "enum")
        || text_is(s, "extern")
        || text_is(s, "false")
        || text_is(s, "final")
        || text_is(s, "fn")
        || text_is(s, "for")
        || text_is(s, "if")
        || text_is(s, "impl")
        || text_is(s, "in")
        || text_is(s, "let")
        || text_is(s, "loop")
        || text_is(s, "macro")
        || text_is(s, "match")
        || text_is(s, "mod")
        || text_is(s, "move")
        || text_is(s, "mut")
        || text_is(s, "override")
        || text_is(s, "priv")
        || text_is(s, "pub")
        || text_is(s, "ref")
        || text_is(s, "return")
        || text_is(s, "Self")
        || text_is(s, "self")
        || text_is(s, "static")
        || text_is(s, "struct")
        || text_is(s, "super")
        || text_is(s, "trait")
        || text_is(s, "true")
        || text_is(s, "type")
        || text_is(s, "typeof")
        || text_is(s, "unsafe")
        || text_is(s, "unsized")
        || text_is(s, "use")
        || text_is(s, "virtual")
        || text_is(s, "where")
        || text_is(s, "while")
        || text_is(s, "yield")
}

/// The token is an identifier that may name something: not `_` and not a
/// reserved word.
pub open spec fn is_ident_token(t: Token) -> bool {
    match t {
        Token::Ident(s) => !is_reserved(s@),
        _ => false,
    }
}

pub open spec fn token_text(t: Token) -> Seq<char> {
    match t {
        Token::Ident(s) => s@,
        Token::Literal(s) => s@,
        _ => Seq::empty(),
    }
}

/// What an annotation payload means, or `None` where it is malformed.
pub open spec fn payload_meaning(toks: Seq<Token>) -> Option<Ann> {
    if toks.len() == 0 {
        Some(Ann::Unannotated)
    } else if !is_ident_token(toks[0]) {
        None
    } else {
        let word = token_text(toks[0]);
        if toks.len() == 1 {
            if word == "skip"@ {
                Some(Ann::Skip)
            } else if word == "default"@ {
                Some(Ann::Default)
            } else if word == "start"@ {
                None
            } else {
                Some(Ann::Single(word))
            }
        } else if word == "start"@ && toks.len() == 3 && toks[1] == Token::Punct('=')
            && is_ident_token(toks[2]) {
            Some(Ann::Start(token_text(toks[2])))
        } else {
            None
        }
    }
}

/// The attribute is an `enumerate` annotation with a payload.
pub open spec fn is_enumerate_attr(a: Attribute) -> bool {
    &&& a.path@.len() == 1
    &&& a.path@[0]@ == "enumerate"@
    &&& a.args.is_some()
}

/// The meaning of a member's attributes: the first `enumerate` annotation
/// decides; with none, the member is unannotated.
pub open spec fn attrs_meaning(attrs: Seq<Attribute>) -> Option<Ann>
    decreases attrs.len(),
{
    if attrs.len() == 0 {
        Some(Ann::Unannotated)
    } else if is_enumerate_attr(attrs[0]) {
        payload_meaning(attrs[0].args.unwrap()@)
    } else {
        attrs_meaning(attrs.drop_first())
    }
}

/// The position of the first `enumerate` annotation among the attributes.
pub open spec fn annotation_index(attrs: Seq<Attribute>) -> Option<int>
    decreases attrs.len(),
{
    if attrs.len() == 0 {
        None
    } else if is_enumerate_attr(attrs[0]) {
        Some(0)
    } else {
        shifted(annotation_index(attrs.drop_first()), 1)
    }
}

pub open spec fn shifted(o: Option<int>, d: int) -> Option<int> {
    match o {
        Some(k) => Some(k + d),
        None => None,
    }
}

pub open spec fn opt_view(r: Option<Annotation>) -> Option<Ann> {
    match r {
        Some(a) => Some(a@),
        None => None,
    }
}

/// Compares a text with a literal, character by character.
pub fn text_is(s: &str, lit: &str) -> (r: bool)
    ensures
        r == (s@ == lit@),
{
    let n = s.unicode_len();
    if n != lit.unicode_len() {
        return false;
    }
    let mut i: usize = 0;
    while i < n
        invariant
            n == s@.len(),
            n == lit@.len(),
            i <= n,
            s@.subrange(0, i as int) == lit@.subrange(0, i as int),
        decreases n - i,
    {
        if s.get_char(i) != lit.get_char(i) {
            assert(s@[i as int] != lit@[i as int]);
            return false;
        }
        assert(s@.subrange(0, i + 1) == s@.subrange(0, i as int).push(s@[i as int]));
        assert(lit@.subrange(0, i + 1) == lit@.subrange(0, i as int).push(lit@[i as int]));
        i = i + 1;
    }
    assert(s@ == s@.subrange(0, n as int));
    assert(lit@ == lit@.subrange(0, n as int));
    true
}

/// Parses one annotation payload.
pub fn parse_payload(toks: &Vec<Token>) -> (r: Option<Annotation>)
    ensures
        opt_view(r) == payload_meaning(toks@),
{
    if toks.len() == 0 {
        return Some(Annotation::Unannotated);
    }
    let word = match &toks[0] {
        Token::Ident(s) => s,
        _ => return None,
    };
    if is_reserved_word(word.as_str()) {
        return None;
    }
    if toks.len() == 1 {
        if text_is(word.as_str(), "skip") {
            Some(Annotation::Skip)
        } else if text_is(word.as_str(), "default") {
            Some(Annotation::Default)
        } else if text_is(word.as_str(), "start") {
            None
        } else {
            Some(Annotation::Single(word.clone()))
        }
    } else if text_is(word.as_str(), "start") && toks.len() == 3 {
        match (&toks[1], &toks[2]) {
            (Token::Punct('='), Token::Ident(g)) => {
                if !is_reserved_word(g.as_str()) {
                    Some(Annotation::Start(g.clone()))
                } else {
                    None
                }
            },
            _ => None,
        }
    } else {
        None
    }
}

/// Finds the first `enumerate` annotation among a member's attributes and
/// parses its payload; a member without one is unannotated. A malformed
/// payload is reported by the position of its attribute.
pub fn parse_attr(attrs: &Vec<Attribute>) -> (r: Result<Annotation, usize>)
    ensures
        match r {
            Ok(a) => attrs_meaning(attrs@) == Some(a@),
            Err(k) => attrs_meaning(attrs@) is None && annotation_index(attrs@) == Some(k as int),
        },
{
    let mut i: usize = 0;
    assert(attrs@.subrange(0, attrs@.len() as int) == attrs@);
    while i < attrs.len()
        invariant
            i <= attrs@.len(),
            attrs_meaning(attrs@) == attrs_meaning(attrs@.subrange(i as int, attrs@.len() as int)),
            annotation_index(attrs@) == shifted(annotation_index(attrs@.subrange(i as int, attrs@.len() as int)), i as int),
        decreases attrs.len() - i,
    {
        let a = &attrs[i];
        assert(attrs@.subrange(i as int, attrs@.len() as int)[0] == *a);
        assert(attrs@.subrange(i as int, attrs@.len() as int).drop_first()
            == attrs@.subrange(i + 1, attrs@.len() as int));
        if a.path.len() == 1 && text_is(a.path[0].as_str(), "enumerate") {
            if let Some(args) = &a.args {
                return match parse_payload(args) {
                    Some(ann) => Ok(ann),
                    None => Err(i),
                };
            }
        }
        i = i + 1;
    }
    assert(attrs@.subrange(i as int, attrs@.len() as int).len() == 0);
    Ok(Annotation::Unannotated)
}

} // verus!
