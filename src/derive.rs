//! The whole pass over one type description: the kind check, per-member
//! validation, resolution, and the accessors that a renderer emits.
use vstd::prelude::*;
use vstd::string::*;
use crate::annotation::{Ann, Annotation, Attribute, annotation_index, attrs_meaning, parse_attr};
use crate::annotation::is_enumerate_attr;
use crate::resolve::{Grouping, GroupingView, Variant, lemma_unannotated_all_default, resolve, resolved, variant_views};

verus! {

/// The kind of the type being described.
#[derive(PartialEq, Eq, Structural, Clone, Copy, Debug)]
pub enum TypeKind {
    Enum,
    Struct,
    Union,
}

/// One member of the type, in declaration order.
pub struct Member {
    pub ident: String,
    /// The member carries data beyond its name.
    pub has_payload: bool,
    pub attrs: Vec<Attribute>,
}

/// A type as the host toolchain describes it.
pub struct TypeDescription {
    pub name: String,
    pub kind: TypeKind,
    pub members: Vec<Member>,
}

/// Why a type description cannot be enumerated.
pub enum Failure {
    /// The type is not an enum; the kind found is given.
    NotAnEnum(TypeKind),
    /// The annotation of the named member is malformed; the position of the
    /// attribute that holds it among the member's attributes is given.
    InvalidArgument(String, usize),
    /// The named member carries data and is not skipped.
    PayloadMember(String),
}

pub enum FailureView {
    NotAnEnum(TypeKind),
    InvalidArgument(Seq<char>, int),
    PayloadMember(Seq<char>),
}

impl View for Failure {
    type V = FailureView;

    open spec fn view(&self) -> FailureView {
        match self {
            Failure::NotAnEnum(k) => FailureView::NotAnEnum(*k),
            Failure::InvalidArgument(m, k) => FailureView::InvalidArgument(m@, *k as int),
            Failure::PayloadMember(m) => FailureView::PayloadMember(m@),
        }
    }
}

/// The message of a failure.
pub open spec fn message_of(f: FailureView) -> Seq<char> {
    match f {
        FailureView::NotAnEnum(TypeKind::Struct) => "Expected `enum` found `struct`."@,
        FailureView::NotAnEnum(TypeKind::Union) => "Expected `enum` found `union`."@,
        FailureView::NotAnEnum(TypeKind::Enum) => "Expected `enum` found `enum`."@,
        FailureView::InvalidArgument(..) => "Invalid argument."@,
        FailureView::PayloadMember(_) => "Cannot enumerate enum with tuple or struct variant."@,
    }
}

/// The remediation hint of a failure, where it has one.
pub open spec fn hint_of(f: FailureView) -> Option<Seq<char>> {
    match f {
        FailureView::NotAnEnum(_) => None,
        FailureView::InvalidArgument(..) => Some("Expected `skip`, `default`, valid identifier, or `start = <ident>`."@),
        FailureView::PayloadMember(_) => Some("Try skipping the variant with the `#[enumerate(skip)]` attribute."@),
    }
}

impl Failure {
    /// The position of the malformed annotation among its member's
    /// attributes, for a failure of that kind.
    pub fn annotation(&self) -> (r: Option<usize>)
        ensures
            r == match self {
                Failure::InvalidArgument(_, k) => Some(*k),
                _ => None,
            },
    {
        match self {
            Failure::InvalidArgument(_, k) => Some(*k),
            _ => None,
        }
    }

    /// The member the failure is anchored to, if it is anchored to one.
    pub fn member(&self) -> (r: Option<&String>)
        ensures
            r == match self {
                Failure::NotAnEnum(_) => None,
                Failure::InvalidArgument(m, _) => Some(m),
                Failure::PayloadMember(m) => Some(m),
            },
    {
        match self {
            Failure::NotAnEnum(_) => None,
            Failure::InvalidArgument(m, _) => Some(m),
            Failure::PayloadMember(m) => Some(m),
        }
    }

    pub fn message(&self) -> (r: String)
        ensures
            r@ == message_of(self@),
    {
        match self {
            Failure::NotAnEnum(TypeKind::Struct) => String::from_str("Expected `enum` found `struct`."),
            Failure::NotAnEnum(TypeKind::Union) => String::from_str("Expected `enum` found `union`."),
            Failure::NotAnEnum(TypeKind::Enum) => String::from_str("Expected `enum` found `enum`."),
            Failure::InvalidArgument(..) => String::from_str("Invalid argument."),
            Failure::PayloadMember(_) => String::from_str("Cannot enumerate enum with tuple or struct variant."),
        }
    }

    pub fn hint(&self) -> (r: Option<String>)
        ensures
            match r {
                Some(h) => hint_of(self@) == Some(h@),
                None => hint_of(self@) is None,
            },
    {
        match self {
            Failure::NotAnEnum(_) => None,
            Failure::InvalidArgument(..) => Some(
                String::from_str("Expected `skip`, `default`, valid identifier, or `start = <ident>`."),
            ),
            Failure::PayloadMember(_) => Some(
                String::from_str("Try skipping the variant with the `#[enumerate(skip)]` attribute."),
            ),
        }
    }
}

/// One generated accessor: its name, and the members it yields in order.
pub struct Accessor {
    pub name: String,
    pub members: Vec<String>,
}

impl View for Accessor {
    type V = (Seq<char>, Seq<Seq<char>>);

    open spec fn view(&self) -> (Seq<char>, Seq<Seq<char>>) {
        (self.name@, self.members@.map_values(|s: String| s@))
    }
}

/// A member after validation: its identifier and annotation, or the failure
/// it causes. A malformed annotation is reported before a payload.
pub open spec fn member_check(m: Member) -> Result<(Seq<char>, Ann), FailureView> {
    match attrs_meaning(m.attrs@) {
        None => Err(FailureView::InvalidArgument(m.ident@, annotation_index(m.attrs@)->Some_0)),
        Some(a) => if m.has_payload && a != Ann::Skip {
            Err(FailureView::PayloadMember(m.ident@))
        } else {
            Ok((m.ident@, a))
        },
    }
}

/// The first `n` members after validation, or the first failure among them.
pub open spec fn checked_prefix(ms: Seq<Member>, n: int) -> Result<Seq<(Seq<char>, Ann)>, FailureView>
    decreases n,
{
    if n <= 0 {
        Ok(Seq::empty())
    } else {
        match checked_prefix(ms, n - 1) {
            Err(e) => Err(e),
            Ok(vs) => match member_check(ms[n - 1]) {
                Err(e) => Err(e),
                Ok(v) => Ok(vs.push(v)),
            },
        }
    }
}

/// The grouping of a member list, or its first failure.
pub open spec fn outcome(ms: Seq<Member>) -> Result<GroupingView, FailureView> {
    match checked_prefix(ms, ms.len() as int) {
        Ok(vs) => Ok(resolved(vs)),
        Err(e) => Err(e),
    }
}

/// A group name without the `r#` that marks a raw identifier.
pub open spec fn unraw(group: Seq<char>) -> Seq<char> {
    if group.len() >= 2 && group[0] == 'r' && group[1] == '#' {
        group.subrange(2, group.len() as int)
    } else {
        group
    }
}

/// The name of the accessor of a named group.
pub open spec fn accessor_name_of(group: Seq<char>) -> Seq<char> {
    "enumerate_"@ + unraw(group)
}

/// The accessors of a grouping: the default one first, then one per named
/// group in the order of the grouping.
pub open spec fn accessors_of(g: GroupingView) -> Seq<(Seq<char>, Seq<Seq<char>>)> {
    seq![("enumerate"@, g.default_group)] + g.named_groups.map_values(
        |p: (Seq<char>, Seq<Seq<char>>)| (accessor_name_of(p.0), p.1),
    )
}

/// What a whole type description yields.
pub open spec fn derive_outcome(t: TypeDescription) -> Result<Seq<(Seq<char>, Seq<Seq<char>>)>, FailureView> {
    if t.kind != TypeKind::Enum {
        Err(FailureView::NotAnEnum(t.kind))
    } else {
        match outcome(t.members@) {
            Ok(g) => Ok(accessors_of(g)),
            Err(e) => Err(e),
        }
    }
}

pub open spec fn variant_result_view(r: Result<Variant, Failure>) -> Result<(Seq<char>, Ann), FailureView> {
    match r {
        Ok(v) => Ok(v@),
        Err(e) => Err(e@),
    }
}

pub open spec fn grouping_result_view(r: Result<Grouping, Failure>) -> Result<GroupingView, FailureView> {
    match r {
        Ok(g) => Ok(g@),
        Err(e) => Err(e@),
    }
}

pub open spec fn accessors_result_view(r: Result<Vec<Accessor>, Failure>) -> Result<Seq<(Seq<char>, Seq<Seq<char>>)>, FailureView> {
    match r {
        Ok(v) => Ok(v@.map_values(|a: Accessor| a@)),
        Err(e) => Err(e@),
    }
}

/// Parses a member's annotation and checks that only a skipped member
/// carries data.
pub fn process_variant(m: &Member) -> (r: Result<Variant, Failure>)
    ensures
        variant_result_view(r) == member_check(*m),
{
    match parse_attr(&m.attrs) {
        Err(k) => Err(Failure::InvalidArgument(m.ident.clone(), k)),
        Ok(attr) => {
            let skipped = match attr {
                Annotation::Skip => true,
                _ => false,
            };
            if m.has_payload && !skipped {
                Err(Failure::PayloadMember(m.ident.clone()))
            } else {
                Ok(Variant { ident: m.ident.clone(), attr })
            }
        },
    }
}

/// Validates every member, stopping at the first failure, and resolves the
/// groups of a list that passes.
pub fn group_members(ms: &Vec<Member>) -> (r: Result<Grouping, Failure>)
    ensures
        grouping_result_view(r) == outcome(ms@),
{
    let mut vs: Vec<Variant> = Vec::new();
    let mut i: usize = 0;
    assert(variant_views(vs@) == Seq::<(Seq<char>, Ann)>::empty());
    while i < ms.len()
        invariant
            i <= ms@.len(),
            checked_prefix(ms@, i as int) == Ok::<Seq<(Seq<char>, Ann)>, FailureView>(variant_views(vs@)),
        decreases ms.len() - i,
    {
        match process_variant(&ms[i]) {
            Err(e) => {
                assert(checked_prefix(ms@, i + 1) == Err::<Seq<(Seq<char>, Ann)>, FailureView>(e@));
                proof { lemma_failure_persists(ms@, i + 1, ms@.len() as int); }
                return Err(e);
            },
            Ok(v) => {
                let ghost before = vs@;
                vs.push(v);
                assert(variant_views(vs@) == variant_views(before).push(v@));
            },
        }
        i = i + 1;
    }
    Ok(resolve(&vs))
}

/// Once a prefix fails, every longer prefix fails the same way.
proof fn lemma_failure_persists(ms: Seq<Member>, i: int, n: int)
    requires
        0 <= i <= n,
        checked_prefix(ms, i) is Err,
    ensures
        checked_prefix(ms, n) == checked_prefix(ms, i),
    decreases n - i,
{
    if n > i {
        lemma_failure_persists(ms, i, n - 1);
    }
}

/// When every one of the first `n` members passes validation, the checked
/// prefix holds each of them.
proof fn lemma_all_pass(ms: Seq<Member>, n: int)
    requires
        0 <= n <= ms.len(),
        forall|j: int| 0 <= j < n ==> #[trigger] member_check(ms[j]) is Ok,
    ensures
        checked_prefix(ms, n) == Ok::<Seq<(Seq<char>, Ann)>, FailureView>(
            Seq::new(n as nat, |j: int| member_check(ms[j])->Ok_0),
        ),
    decreases n,
{
    if n > 0 {
        lemma_all_pass(ms, n - 1);
        assert(member_check(ms[n - 1]) is Ok);
        assert(Seq::new(n as nat, |j: int| member_check(ms[j])->Ok_0)
            =~= Seq::new((n - 1) as nat, |j: int| member_check(ms[j])->Ok_0).push(member_check(ms[n - 1])->Ok_0));
    } else {
        assert(Seq::new(0, |j: int| member_check(ms[j])->Ok_0) =~= Seq::<(Seq<char>, Ann)>::empty());
    }
}

/// A member that fails validation makes the whole list fail; when no member
/// before it fails, the list fails with its failure.
proof fn lemma_fails_at(ms: Seq<Member>, i: int)
    requires
        0 <= i < ms.len(),
        member_check(ms[i]) is Err,
    ensures
        outcome(ms) is Err,
        (forall|j: int| 0 <= j < i ==> #[trigger] member_check(ms[j]) is Ok)
            ==> outcome(ms) == Err::<GroupingView, FailureView>(member_check(ms[i])->Err_0),
{
    let n = ms.len() as int;
    if checked_prefix(ms, i) is Err {
        lemma_failure_persists(ms, i, n);
        lemma_failure_persists(ms, i, i + 1);
    } else {
        assert(checked_prefix(ms, i + 1) == Err::<Seq<(Seq<char>, Ann)>, FailureView>(member_check(ms[i])->Err_0));
        lemma_failure_persists(ms, i + 1, n);
    }
    if forall|j: int| 0 <= j < i ==> #[trigger] member_check(ms[j]) is Ok {
        lemma_all_pass(ms, i);
    }
}

/// A member without an `enumerate` annotation is unannotated.
proof fn lemma_no_annotation(attrs: Seq<Attribute>)
    requires
        forall|j: int| 0 <= j < attrs.len() ==> !is_enumerate_attr(#[trigger] attrs[j]),
    ensures
        attrs_meaning(attrs) == Some(Ann::Unannotated),
    decreases attrs.len(),
{
    if attrs.len() > 0 {
        assert(!is_enumerate_attr(attrs[0]));
        assert forall|j: int| 0 <= j < attrs.drop_first().len() implies
            !is_enumerate_attr(#[trigger] attrs.drop_first()[j]) by {
            assert(attrs.drop_first()[j] == attrs[j + 1]);
        }
        lemma_no_annotation(attrs.drop_first());
    }
}

/// Members that carry no data and no `enumerate` annotation all go to the
/// default group, in declaration order, and no named group is made.
pub proof fn lemma_plain_members_all_default(ms: Seq<Member>)
    requires
        forall|i: int| 0 <= i < ms.len() ==> !(#[trigger] ms[i]).has_payload,
        forall|i: int, j: int| 0 <= i < ms.len() && 0 <= j < ms[i].attrs@.len()
            ==> !is_enumerate_attr(#[trigger] ms[i].attrs@[j]),
    ensures
        outcome(ms) == Ok::<GroupingView, FailureView>(GroupingView {
            default_group: ms.map_values(|m: Member| m.ident@),
            named_groups: Seq::empty(),
        }),
{
    let n = ms.len() as int;
    assert forall|i: int| 0 <= i < n implies #[trigger] member_check(ms[i]) == Ok::<(Seq<char>, Ann), FailureView>((ms[i].ident@, Ann::Unannotated)) by {
        assert forall|j: int| 0 <= j < ms[i].attrs@.len() implies !is_enumerate_attr(#[trigger] ms[i].attrs@[j]) by {}
        lemma_no_annotation(ms[i].attrs@);
        assert(!ms[i].has_payload);
    }
    lemma_all_pass(ms, n);
    let vs = Seq::new(n as nat, |j: int| member_check(ms[j])->Ok_0);
    assert forall|i: int| 0 <= i < vs.len() implies #[trigger] vs[i].1 == Ann::Unannotated by {
        assert(member_check(ms[i]) == Ok::<(Seq<char>, Ann), FailureView>((ms[i].ident@, Ann::Unannotated)));
    }
    lemma_unannotated_all_default(vs);
    assert(vs.map_values(|v: (Seq<char>, Ann)| v.0) =~= ms.map_values(|m: Member| m.ident@)) by {
        assert forall|i: int| 0 <= i < n implies vs[i].0 == ms[i].ident@ by {
            assert(member_check(ms[i]) == Ok::<(Seq<char>, Ann), FailureView>((ms[i].ident@, Ann::Unannotated)));
        }
    }
    assert(resolved(vs).named_groups =~= Seq::<(Seq<char>, Seq<Seq<char>>)>::empty());
}

/// Grouping the same member list twice gives the same result.
pub proof fn lemma_grouping_deterministic(
    ms: Seq<Member>,
    r1: Result<Grouping, Failure>,
    r2: Result<Grouping, Failure>,
)
    requires
        grouping_result_view(r1) == outcome(ms),
        grouping_result_view(r2) == outcome(ms),
    ensures
        grouping_result_view(r1) == grouping_result_view(r2),
{
}

/// A member that carries data and is not skipped makes the list fail,
/// wherever it stands; when no member before it fails, the failure names it.
pub proof fn lemma_payload_member_fails(ms: Seq<Member>, i: int)
    requires
        0 <= i < ms.len(),
        ms[i].has_payload,
        attrs_meaning(ms[i].attrs@) is Some,
        attrs_meaning(ms[i].attrs@) != Some(Ann::Skip),
    ensures
        outcome(ms) is Err,
        (forall|j: int| 0 <= j < i ==> #[trigger] member_check(ms[j]) is Ok)
            ==> outcome(ms) == Err::<GroupingView, FailureView>(FailureView::PayloadMember(ms[i].ident@)),
{
    lemma_fails_at(ms, i);
}

/// A malformed annotation makes the list fail, wherever it stands; when no
/// member before it fails, the failure names its member.
pub proof fn lemma_malformed_annotation_fails(ms: Seq<Member>, i: int)
    requires
        0 <= i < ms.len(),
        attrs_meaning(ms[i].attrs@) is None,
    ensures
        outcome(ms) is Err,
        (forall|j: int| 0 <= j < i ==> #[trigger] member_check(ms[j]) is Ok)
            ==> outcome(ms) == Err::<GroupingView, FailureView>(
                FailureView::InvalidArgument(ms[i].ident@, annotation_index(ms[i].attrs@)->Some_0),
            ),
{
    lemma_fails_at(ms, i);
}

/// The name of the accessor of a named group.
pub fn accessor_name(group: &str) -> (r: String)
    ensures
        r@ == accessor_name_of(group@),
{
    let mut name = String::from_str("enumerate_");
    let n = group.unicode_len();
    if n >= 2 && group.get_char(0) == 'r' && group.get_char(1) == '#' {
        name.append(group.substring_char(2, n));
    } else {
        name.append(group);
    }
    name
}

fn clone_texts(v: &Vec<String>) -> (r: Vec<String>)
    ensures
        r@ == v@,
{
    let mut r: Vec<String> = Vec::new();
    let mut i: usize = 0;
    while i < v.len()
        invariant
            i <= v@.len(),
            r@ == v@.subrange(0, i as int),
        decreases v.len() - i,
    {
        r.push(v[i].clone());
        assert(r@ == v@.subrange(0, i + 1));
        i = i + 1;
    }
    assert(v@.subrange(0, v@.len() as int) == v@);
    r
}

/// The accessors of a grouping: the default one, named `enumerate`, first,
/// then one per named group.
pub fn accessors(g: &Grouping) -> (r: Vec<Accessor>)
    ensures
        r@.map_values(|a: Accessor| a@) == accessors_of(g@),
{
    let mut r: Vec<Accessor> = Vec::new();
    r.push(Accessor { name: String::from_str("enumerate"), members: clone_texts(&g.default_group) });
    let mut i: usize = 0;
    while i < g.named_groups.len()
        invariant
            i <= g.named_groups@.len(),
            r@.map_values(|a: Accessor| a@) == accessors_of(g@).subrange(0, i + 1),
        decreases g.named_groups.len() - i,
    {
        let grp = &g.named_groups[i];
        let ghost before = r@;
        r.push(Accessor { name: accessor_name(grp.name.as_str()), members: clone_texts(&grp.members) });
        assert(r@.map_values(|a: Accessor| a@) == before.map_values(|a: Accessor| a@).push(r@[i + 1]@));
        assert(accessors_of(g@).subrange(0, i + 2) == accessors_of(g@).subrange(0, i + 1).push(accessors_of(g@)[i + 1]));
        i = i + 1;
    }
    assert(accessors_of(g@).subrange(0, i + 1) == accessors_of(g@));
    r
}

/// Checks the kind of the type, groups its members, and lists the accessors
/// to generate: the default one, then one per named group.
pub fn derive_enumerate(input: &TypeDescription) -> (r: Result<Vec<Accessor>, Failure>)
    ensures
        accessors_result_view(r) == derive_outcome(*input),
{
    if input.kind != TypeKind::Enum {
        return Err(Failure::NotAnEnum(input.kind));
    }
    match group_members(&input.members) {
        Ok(g) => Ok(accessors(&g)),
        Err(e) => Err(e),
    }
}

} // verus!
