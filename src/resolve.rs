//! Group resolution: one left-to-right pass over the annotated members,
//! threading the active group.
use vstd::prelude::*;
use crate::annotation::{Ann, Annotation};

verus! {

/// A member that passed validation, with its parsed annotation.
pub struct Variant {
    pub ident: String,
    pub attr: Annotation,
}

impl View for Variant {
    type V = (Seq<char>, Ann);

    open spec fn view(&self) -> (Seq<char>, Ann) {
        (self.ident@, self.attr@)
    }
}

pub open spec fn variant_views(vs: Seq<Variant>) -> Seq<(Seq<char>, Ann)> {
    vs.map_values(|v: Variant| v@)
}

/// A named group and its members, in declaration order.
pub struct Group {
    pub name: String,
    pub members: Vec<String>,
}

/// The result of resolution: the default group, and the named groups in the
/// order in which their names were first seen.
pub struct Grouping {
    pub default_group: Vec<String>,
    pub named_groups: Vec<Group>,
}

/// The mathematical model of a [`Grouping`].
pub struct GroupingView {
    pub default_group: Seq<Seq<char>>,
    pub named_groups: Seq<(Seq<char>, Seq<Seq<char>>)>,
}

pub open spec fn texts(v: Seq<String>) -> Seq<Seq<char>> {
    v.map_values(|s: String| s@)
}

impl View for Group {
    type V = (Seq<char>, Seq<Seq<char>>);

    open spec fn view(&self) -> (Seq<char>, Seq<Seq<char>>) {
        (self.name@, texts(self.members@))
    }
}

impl View for Grouping {
    type V = GroupingView;

    open spec fn view(&self) -> GroupingView {
        GroupingView {
            default_group: texts(self.default_group@),
            named_groups: self.named_groups@.map_values(|g: Group| g@),
        }
    }
}

/// Where a member goes.
pub enum Dest {
    Nowhere,
    DefaultGroup,
    Named(Seq<char>),
}

/// The active group when member `i` is reached: the group of the last
/// `start` annotation before it, if any.
pub open spec fn active_before(vs: Seq<(Seq<char>, Ann)>, i: int) -> Option<Seq<char>>
    decreases i,
{
    if i <= 0 {
        None
    } else {
        match vs[i - 1].1 {
            Ann::Start(g) => Some(g),
            _ => active_before(vs, i - 1),
        }
    }
}

/// Where member `i` goes.
pub open spec fn dest(vs: Seq<(Seq<char>, Ann)>, i: int) -> Dest {
    match vs[i].1 {
        Ann::Skip => Dest::Nowhere,
        Ann::Default => Dest::DefaultGroup,
        Ann::Start(g) => Dest::Named(g),
        Ann::Single(g) => Dest::Named(g),
        Ann::Unannotated => match active_before(vs, i) {
            Some(g) => Dest::Named(g),
            None => Dest::DefaultGroup,
        },
    }
}

/// The members among the first `n` that go to `d`, in declaration order.
pub open spec fn members_to(vs: Seq<(Seq<char>, Ann)>, d: Dest, n: int) -> Seq<Seq<char>>
    decreases n,
{
    if n <= 0 {
        Seq::empty()
    } else if dest(vs, n - 1) == d {
        members_to(vs, d, n - 1).push(vs[n - 1].0)
    } else {
        members_to(vs, d, n - 1)
    }
}

/// The names of the groups that the first `n` members go to, in the order
/// in which they are first seen.
pub open spec fn group_names(vs: Seq<(Seq<char>, Ann)>, n: int) -> Seq<Seq<char>>
    decreases n,
{
    if n <= 0 {
        Seq::empty()
    } else {
        let prev = group_names(vs, n - 1);
        match dest(vs, n - 1) {
            Dest::Named(g) => if prev.contains(g) {
                prev
            } else {
                prev.push(g)
            },
            _ => prev,
        }
    }
}

/// The grouping of a list of validated members.
pub open spec fn resolved(vs: Seq<(Seq<char>, Ann)>) -> GroupingView {
    let n = vs.len() as int;
    GroupingView {
        default_group: members_to(vs, Dest::DefaultGroup, n),
        named_groups: group_names(vs, n).map_values(
            |g: Seq<char>| (g, members_to(vs, Dest::Named(g), n)),
        ),
    }
}

/// A group whose name none of the first `n` members went to is empty so far.
proof fn lemma_unseen_group_empty(vs: Seq<(Seq<char>, Ann)>, g: Seq<char>, n: int)
    requires
        0 <= n <= vs.len(),
        !group_names(vs, n).contains(g),
    ensures
        members_to(vs, Dest::Named(g), n) == Seq::<Seq<char>>::empty(),
    decreases n,
{
    if n > 0 {
        let prev = group_names(vs, n - 1);
        if prev.contains(g) {
            let k = choose|k: int| 0 <= k < prev.len() && prev[k] == g;
            match dest(vs, n - 1) {
                Dest::Named(h) => if !prev.contains(h) {
                    assert(prev.push(h)[k] == g);
                },
                _ => {},
            }
        }
        if dest(vs, n - 1) == Dest::Named(g) {
            if !prev.contains(g) {
                assert(prev.push(g)[prev.len() as int] == g);
            }
        }
        lemma_unseen_group_empty(vs, g, n - 1);
    }
}

/// The named groups are what the first `n` members put in them.
pub open spec fn groups_match(w: Seq<(Seq<char>, Ann)>, named: Seq<Group>, n: int) -> bool {
    &&& named.len() == group_names(w, n).len()
    &&& forall|k: int| 0 <= k < named.len() ==> #[trigger] group_matches(w, named[k], n, k)
}

/// The group at position `k` is the `k`-th group that the first `n` members
/// name, with the members they put in it.
pub open spec fn group_matches(w: Seq<(Seq<char>, Ann)>, grp: Group, n: int, k: int) -> bool {
    &&& grp.name@ == group_names(w, n)[k]
    &&& texts(grp.members@) == members_to(w, Dest::Named(group_names(w, n)[k]), n)
}

/// A member that goes to no named group leaves every named group as it was.
proof fn lemma_named_unchanged(vs: Seq<(Seq<char>, Ann)>, i: int, named: Seq<Group>)
    requires
        0 <= i < vs.len(),
        !(dest(vs, i) is Named),
        groups_match(vs, named, i),
    ensures
        groups_match(vs, named, i + 1),
{
    assert forall|k: int| 0 <= k < named.len() implies #[trigger] group_matches(vs, named[k], i + 1, k) by {
        assert(group_matches(vs, named[k], i, k));
    }
}

/// A member that goes to group `g` is appended to it and to nothing else.
proof fn lemma_named_step(vs: Seq<(Seq<char>, Ann)>, i: int, g: Seq<char>)
    requires
        0 <= i < vs.len(),
        dest(vs, i) == Dest::Named(g),
    ensures
        group_names(vs, i + 1) == if group_names(vs, i).contains(g) {
            group_names(vs, i)
        } else {
            group_names(vs, i).push(g)
        },
        members_to(vs, Dest::Named(g), i + 1) == members_to(vs, Dest::Named(g), i).push(vs[i].0),
        members_to(vs, Dest::DefaultGroup, i + 1) == members_to(vs, Dest::DefaultGroup, i),
        forall|h: Seq<char>| h != g ==> #[trigger] members_to(vs, Dest::Named(h), i + 1) == members_to(vs, Dest::Named(h), i),
{
}

/// Appending member `i` to group `g` at position `k` keeps the named groups
/// what the members put in them.
proof fn lemma_named_append(
    vs: Seq<(Seq<char>, Ann)>,
    i: int,
    g: Seq<char>,
    old_named: Seq<Group>,
    named: Seq<Group>,
    k: int,
)
    requires
        0 <= i < vs.len(),
        dest(vs, i) == Dest::Named(g),
        groups_match(vs, old_named, i),
        named.len() == group_names(vs, i + 1).len(),
        0 <= k < named.len(),
        named[k].name@ == g,
        k < old_named.len() ==> named[k].name@ == old_named[k].name@,
        texts(named[k].members@) == members_to(vs, Dest::Named(g), i).push(vs[i].0),
        forall|j: int| 0 <= j < named.len() && j != k ==> j < old_named.len() && named[j] == old_named[j],
    ensures
        groups_match(vs, named, i + 1),
{
    lemma_named_step(vs, i, g);
    lemma_group_names_distinct(vs, i + 1);
    let names = group_names(vs, i);
    let next = group_names(vs, i + 1);
    if k < old_named.len() {
        assert(group_matches(vs, old_named[k], i, k));
        assert(names.contains(g));
        assert(next == names);
        if next[k] != g {
            let m = choose|m: int| 0 <= m < names.len() && names[m] == g;
            assert(names[m] == names[k]);
        }
    } else {
        assert(!names.contains(g)) by {
            if names.contains(g) {
                assert(next == names);
            }
        }
    }
    assert forall|j: int| 0 <= j < named.len() implies #[trigger] group_matches(vs, named[j], i + 1, j) by {
        if j != k {
            assert(group_matches(vs, old_named[j], i, j));
            assert(next[j] == names[j]);
            assert(next[j] != next[k]);
        }
    }
}

/// The names of the groups never repeat.
proof fn lemma_group_names_distinct(vs: Seq<(Seq<char>, Ann)>, n: int)
    requires
        0 <= n <= vs.len(),
    ensures
        group_names(vs, n).no_duplicates(),
    decreases n,
{
    if n > 0 {
        lemma_group_names_distinct(vs, n - 1);
    }
}

/// Every element of a group comes from a member that goes there, among the
/// first `n`.
proof fn lemma_members_origin(vs: Seq<(Seq<char>, Ann)>, d: Dest, n: int)
    requires
        0 <= n <= vs.len(),
    ensures
        forall|x: Seq<char>| #[trigger] members_to(vs, d, n).contains(x) ==>
            exists|j: int| 0 <= j < n && dest(vs, j) == d && vs[j].0 == x,
    decreases n,
{
    if n > 0 {
        lemma_members_origin(vs, d, n - 1);
        assert forall|x: Seq<char>| #[trigger] members_to(vs, d, n).contains(x) implies
            exists|j: int| 0 <= j < n && dest(vs, j) == d && vs[j].0 == x by {
            if dest(vs, n - 1) == d {
                let prev = members_to(vs, d, n - 1);
                let cur = prev.push(vs[n - 1].0);
                if x == vs[n - 1].0 {
                    assert(0 <= n - 1 < n && dest(vs, n - 1) == d && vs[n - 1].0 == x);
                } else {
                    let k = choose|k: int| 0 <= k < cur.len() && cur[k] == x;
                    assert(prev[k] == x);
                    assert(prev.contains(x));
                }
            } else {
                assert(members_to(vs, d, n - 1).contains(x));
            }
        }
    }
}

/// A member among the first `n` is listed in the group it goes to, and that
/// group's name is listed among the group names.
proof fn lemma_member_listed(vs: Seq<(Seq<char>, Ann)>, j: int, n: int)
    requires
        0 <= j < n <= vs.len(),
    ensures
        members_to(vs, dest(vs, j), n).contains(vs[j].0),
        dest(vs, j) is Named ==> group_names(vs, n).contains(dest(vs, j)->Named_0),
    decreases n,
{
    if j == n - 1 {
        let prev = members_to(vs, dest(vs, j), n - 1);
        assert(prev.push(vs[j].0)[prev.len() as int] == vs[j].0);
        if let Dest::Named(g) = dest(vs, j) {
            let names = group_names(vs, n - 1);
            if !names.contains(g) {
                assert(names.push(g)[names.len() as int] == g);
            }
        }
    } else {
        lemma_member_listed(vs, j, n - 1);
        let prev = members_to(vs, dest(vs, j), n - 1);
        let k = choose|k: int| 0 <= k < prev.len() && prev[k] == vs[j].0;
        if dest(vs, n - 1) == dest(vs, j) {
            assert(prev.push(vs[n - 1].0)[k] == vs[j].0);
        }
        if let Dest::Named(g) = dest(vs, j) {
            let names = group_names(vs, n - 1);
            let m = choose|m: int| 0 <= m < names.len() && names[m] == g;
            if let Dest::Named(h) = dest(vs, n - 1) {
                if !names.contains(h) {
                    assert(names.push(h)[m] == g);
                }
            }
        }
    }
}

/// What a group holds after `n` members is how it begins after `m >= n`.
proof fn lemma_members_prefix(vs: Seq<(Seq<char>, Ann)>, d: Dest, n: int, m: int)
    requires
        0 <= n <= m <= vs.len(),
    ensures
        members_to(vs, d, n).len() <= members_to(vs, d, m).len(),
        members_to(vs, d, m).subrange(0, members_to(vs, d, n).len() as int) == members_to(vs, d, n),
    decreases m - n,
{
    if m > n {
        lemma_members_prefix(vs, d, n, m - 1);
        let prev = members_to(vs, d, m - 1);
        let len = members_to(vs, d, n).len() as int;
        if dest(vs, m - 1) == d {
            assert(prev.push(vs[m - 1].0).subrange(0, len) == prev.subrange(0, len));
        }
    }
}

/// The grouping lists the named group `g` with the members that go there.
proof fn lemma_named_entry(vs: Seq<(Seq<char>, Ann)>, j: int, g: Seq<char>) -> (k: int)
    requires
        0 <= j < vs.len(),
        dest(vs, j) == Dest::Named(g),
    ensures
        0 <= k < resolved(vs).named_groups.len(),
        resolved(vs).named_groups[k] == (g, members_to(vs, Dest::Named(g), vs.len() as int)),
{
    lemma_member_listed(vs, j, vs.len() as int);
    let names = group_names(vs, vs.len() as int);
    choose|k: int| 0 <= k < names.len() && names[k] == g
}

/// The first `n` members, when none is annotated: all of them go to the
/// default group and no group is active.
proof fn lemma_unannotated_prefix(vs: Seq<(Seq<char>, Ann)>, n: int)
    requires
        0 <= n <= vs.len(),
        forall|i: int| 0 <= i < vs.len() ==> #[trigger] vs[i].1 == Ann::Unannotated,
    ensures
        members_to(vs, Dest::DefaultGroup, n) == vs.subrange(0, n).map_values(|v: (Seq<char>, Ann)| v.0),
        group_names(vs, n) == Seq::<Seq<char>>::empty(),
        active_before(vs, n) is None,
    decreases n,
{
    if n > 0 {
        lemma_unannotated_prefix(vs, n - 1);
        assert(vs[n - 1].1 == Ann::Unannotated);
        assert(vs.subrange(0, n).map_values(|v: (Seq<char>, Ann)| v.0)
            == vs.subrange(0, n - 1).map_values(|v: (Seq<char>, Ann)| v.0).push(vs[n - 1].0));
    }
}

/// With no annotations, the default group holds every member in
/// declaration order and there is no named group.
pub proof fn lemma_unannotated_all_default(vs: Seq<(Seq<char>, Ann)>)
    requires
        forall|i: int| 0 <= i < vs.len() ==> #[trigger] vs[i].1 == Ann::Unannotated,
    ensures
        resolved(vs).default_group == vs.map_values(|v: (Seq<char>, Ann)| v.0),
        resolved(vs).named_groups.len() == 0,
{
    lemma_unannotated_prefix(vs, vs.len() as int);
    assert(vs.subrange(0, vs.len() as int) == vs);
}

/// The identifiers of the members are pairwise different.
pub open spec fn distinct_idents(vs: Seq<(Seq<char>, Ann)>) -> bool {
    forall|a: int, b: int| 0 <= a < vs.len() && 0 <= b < vs.len() && a != b ==> vs[a].0 != vs[b].0
}

/// A skipped member is in neither the default group nor any named group.
pub proof fn lemma_skipped_nowhere(vs: Seq<(Seq<char>, Ann)>, i: int)
    requires
        0 <= i < vs.len(),
        distinct_idents(vs),
        vs[i].1 == Ann::Skip,
    ensures
        !resolved(vs).default_group.contains(vs[i].0),
        forall|k: int| 0 <= k < resolved(vs).named_groups.len()
            ==> !(#[trigger] resolved(vs).named_groups[k]).1.contains(vs[i].0),
{
    let n = vs.len() as int;
    lemma_members_origin(vs, Dest::DefaultGroup, n);
    assert forall|k: int| 0 <= k < resolved(vs).named_groups.len()
        implies !(#[trigger] resolved(vs).named_groups[k]).1.contains(vs[i].0) by {
        let g = group_names(vs, n)[k];
        lemma_members_origin(vs, Dest::Named(g), n);
        assert(resolved(vs).named_groups[k].1 == members_to(vs, Dest::Named(g), n));
    }
}

/// Before a `start` annotation on a member that no earlier member's group
/// shares, the group is empty.
proof fn lemma_fresh_group_empty(vs: Seq<(Seq<char>, Ann)>, g: Seq<char>, n: int)
    requires
        0 <= n <= vs.len(),
        forall|j: int| 0 <= j < n ==> dest(vs, j) != Dest::Named(g),
    ensures
        members_to(vs, Dest::Named(g), n) == Seq::<Seq<char>>::empty(),
    decreases n,
{
    if n > 0 {
        lemma_fresh_group_empty(vs, g, n - 1);
    }
}

/// After a `start` annotation, the run of unannotated members that follows
/// it joins its group.
proof fn lemma_start_run(vs: Seq<(Seq<char>, Ann)>, i: int, g: Seq<char>, n: int)
    requires
        0 <= i < n <= vs.len(),
        vs[i].1 == Ann::Start(g),
        forall|j: int| i < j < n ==> #[trigger] vs[j].1 == Ann::Unannotated,
    ensures
        members_to(vs, Dest::Named(g), n) == members_to(vs, Dest::Named(g), i)
            + vs.subrange(i, n).map_values(|v: (Seq<char>, Ann)| v.0),
        active_before(vs, n) == Some(g),
    decreases n,
{
    if n > i + 1 {
        lemma_start_run(vs, i, g, n - 1);
        assert(vs[n - 1].1 == Ann::Unannotated);
        assert(vs.subrange(i, n).map_values(|v: (Seq<char>, Ann)| v.0)
            == vs.subrange(i, n - 1).map_values(|v: (Seq<char>, Ann)| v.0).push(vs[n - 1].0));
    } else {
        assert(vs.subrange(i, n).map_values(|v: (Seq<char>, Ann)| v.0) == seq![vs[i].0]);
    }
}

/// A member annotated `start = g`, where no earlier member went to `g`,
/// heads group `g`; the unannotated members right after it follow it there,
/// in declaration order.
pub proof fn lemma_start_heads_group(vs: Seq<(Seq<char>, Ann)>, i: int, g: Seq<char>, n: int)
    requires
        0 <= i < n <= vs.len(),
        vs[i].1 == Ann::Start(g),
        forall|j: int| 0 <= j < i ==> dest(vs, j) != Dest::Named(g),
        forall|j: int| i < j < n ==> #[trigger] vs[j].1 == Ann::Unannotated,
    ensures
        exists|k: int| 0 <= k < resolved(vs).named_groups.len()
            && (#[trigger] resolved(vs).named_groups[k]).0 == g
            && resolved(vs).named_groups[k].1.subrange(0, n - i)
                == vs.subrange(i, n).map_values(|v: (Seq<char>, Ann)| v.0),
{
    lemma_fresh_group_empty(vs, g, i);
    lemma_start_run(vs, i, g, n);
    let run = vs.subrange(i, n).map_values(|v: (Seq<char>, Ann)| v.0);
    assert(members_to(vs, Dest::Named(g), n) == run);
    lemma_members_prefix(vs, Dest::Named(g), n, vs.len() as int);
    let k = lemma_named_entry(vs, i, g);
    assert(resolved(vs).named_groups[k].0 == g);
}

/// A member annotated with a bare group name `g` is in group `g`, and the
/// active group after it is the one before it.
pub proof fn lemma_single_keeps_active(vs: Seq<(Seq<char>, Ann)>, i: int, g: Seq<char>)
    requires
        0 <= i < vs.len(),
        vs[i].1 == Ann::Single(g),
    ensures
        exists|k: int| 0 <= k < resolved(vs).named_groups.len()
            && (#[trigger] resolved(vs).named_groups[k]).0 == g
            && resolved(vs).named_groups[k].1.contains(vs[i].0),
        active_before(vs, i + 1) == active_before(vs, i),
{
    lemma_member_listed(vs, i, vs.len() as int);
    let k = lemma_named_entry(vs, i, g);
    assert(resolved(vs).named_groups[k].0 == g);
}

/// A member annotated `default` is in the default group whatever group is
/// active, in no named group, and the active group after it is the one
/// before it.
pub proof fn lemma_default_in_default_group(vs: Seq<(Seq<char>, Ann)>, i: int)
    requires
        0 <= i < vs.len(),
        distinct_idents(vs),
        vs[i].1 == Ann::Default,
    ensures
        resolved(vs).default_group.contains(vs[i].0),
        forall|k: int| 0 <= k < resolved(vs).named_groups.len()
            ==> !(#[trigger] resolved(vs).named_groups[k]).1.contains(vs[i].0),
        active_before(vs, i + 1) == active_before(vs, i),
{
    let n = vs.len() as int;
    lemma_member_listed(vs, i, n);
    assert forall|k: int| 0 <= k < resolved(vs).named_groups.len()
        implies !(#[trigger] resolved(vs).named_groups[k]).1.contains(vs[i].0) by {
        let g = group_names(vs, n)[k];
        lemma_members_origin(vs, Dest::Named(g), n);
        assert(resolved(vs).named_groups[k].1 == members_to(vs, Dest::Named(g), n));
    }
}

/// Where member `j` of the list without member `i` stood in the full list.
pub open spec fn index_in_full(i: int, j: int) -> int {
    if j < i {
        j
    } else {
        j + 1
    }
}

/// Removing a member that starts no group leaves the active group of every
/// other member as it was.
proof fn lemma_remove_active(vs: Seq<(Seq<char>, Ann)>, i: int, j: int)
    requires
        0 <= i < vs.len(),
        !(vs[i].1 is Start),
        0 <= j < vs.len(),
    ensures
        active_before(vs.remove(i), j) == active_before(vs, if j <= i { j } else { j + 1 }),
    decreases j,
{
    let w = vs.remove(i);
    if j > 0 {
        lemma_remove_active(vs, i, j - 1);
        if j - 1 < i {
            assert(w[j - 1] == vs[j - 1]);
        } else {
            assert(w[j - 1] == vs[j]);
            if j - 1 == i {
                assert(active_before(vs, i + 1) == active_before(vs, i));
            }
            assert(active_before(vs, j + 1) == match vs[j].1 {
                Ann::Start(g) => Some(g),
                _ => active_before(vs, j),
            });
        }
    }
}

/// Removing a member that starts no group sends every other member where it
/// went before.
pub proof fn lemma_remove_keeps_dest(vs: Seq<(Seq<char>, Ann)>, i: int, j: int)
    requires
        0 <= i < vs.len(),
        !(vs[i].1 is Start),
        0 <= j < vs.len() - 1,
    ensures
        dest(vs.remove(i), j) == dest(vs, index_in_full(i, j)),
{
    let w = vs.remove(i);
    lemma_remove_active(vs, i, j);
    if j < i {
        assert(w[j] == vs[j]);
    } else {
        assert(w[j] == vs[j + 1]);
        lemma_remove_active(vs, i, j);
        if j == i {
            assert(active_before(vs, i + 1) == active_before(vs, i));
        }
    }
}

/// Without a member that starts no group, a group it did not go to keeps
/// its members.
proof fn lemma_remove_other_group(vs: Seq<(Seq<char>, Ann)>, i: int, d: Dest, n: int)
    requires
        0 <= i < vs.len(),
        !(vs[i].1 is Start),
        dest(vs, i) != d,
        0 <= n <= vs.len() - 1,
    ensures
        members_to(vs.remove(i), d, n) == members_to(vs, d, index_in_full(i, n)),
    decreases n,
{
    if n >= i {
        assert(members_to(vs, d, i + 1) == members_to(vs, d, i));
    }
    if n > 0 {
        lemma_remove_other_group(vs, i, d, n - 1);
        lemma_remove_keeps_dest(vs, i, n - 1);
        let w = vs.remove(i);
        if n - 1 < i {
            assert(w[n - 1] == vs[n - 1]);
        } else {
            assert(w[n - 1] == vs[n]);
        }
    }
}

/// Without a member that starts no group, the group it went to loses that
/// member and nothing else.
proof fn lemma_remove_own_group(vs: Seq<(Seq<char>, Ann)>, i: int, n: int)
    requires
        0 <= i < vs.len(),
        !(vs[i].1 is Start),
        i <= n <= vs.len() - 1,
    ensures
        members_to(vs, dest(vs, i), n + 1).len() > members_to(vs, dest(vs, i), i).len(),
        members_to(vs.remove(i), dest(vs, i), n)
            == members_to(vs, dest(vs, i), n + 1).remove(members_to(vs, dest(vs, i), i).len() as int),
    decreases n,
{
    let d = dest(vs, i);
    let k = members_to(vs, d, i).len() as int;
    let w = vs.remove(i);
    if n == i {
        lemma_remove_other_group_prefix(vs, i, d, i);
        assert(members_to(vs, d, i).push(vs[i].0).remove(k) == members_to(vs, d, i));
    } else {
        lemma_remove_own_group(vs, i, n - 1);
        lemma_remove_keeps_dest(vs, i, n - 1);
        assert(w[n - 1] == vs[n]);
        let prev = members_to(vs, d, n);
        if dest(vs, n) == d {
            assert(prev.push(vs[n].0).remove(k) == prev.remove(k).push(vs[n].0));
        }
    }
}

/// Before the removed member, nothing changes.
proof fn lemma_remove_other_group_prefix(vs: Seq<(Seq<char>, Ann)>, i: int, d: Dest, n: int)
    requires
        0 <= i < vs.len(),
        0 <= n <= i,
        !(vs[i].1 is Start),
    ensures
        members_to(vs.remove(i), d, n) == members_to(vs, d, n),
    decreases n,
{
    if n > 0 {
        lemma_remove_other_group_prefix(vs, i, d, n - 1);
        lemma_remove_keeps_dest(vs, i, n - 1);
        assert(vs.remove(i)[n - 1] == vs[n - 1]);
    }
}

/// Without a member that goes to no named group, the group names are the same.
proof fn lemma_remove_keeps_names(vs: Seq<(Seq<char>, Ann)>, i: int, n: int)
    requires
        0 <= i < vs.len(),
        !(dest(vs, i) is Named),
        !(vs[i].1 is Start),
        0 <= n <= vs.len() - 1,
    ensures
        group_names(vs.remove(i), n) == group_names(vs, index_in_full(i, n)),
    decreases n,
{
    if n >= i {
        assert(group_names(vs, i + 1) == group_names(vs, i));
    }
    if n > 0 {
        lemma_remove_keeps_names(vs, i, n - 1);
        lemma_remove_keeps_dest(vs, i, n - 1);
    }
}

/// Removing a skipped member changes nothing: the grouping without it is
/// the grouping with it.
pub proof fn lemma_remove_skipped(vs: Seq<(Seq<char>, Ann)>, i: int)
    requires
        0 <= i < vs.len(),
        vs[i].1 == Ann::Skip,
    ensures
        resolved(vs.remove(i)) == resolved(vs),
{
    let w = vs.remove(i);
    let n = w.len() as int;
    lemma_remove_other_group(vs, i, Dest::DefaultGroup, n);
    lemma_remove_keeps_names(vs, i, n);
    assert forall|g: Seq<char>| #[trigger] members_to(w, Dest::Named(g), n) == members_to(vs, Dest::Named(g), n + 1) by {
        lemma_remove_other_group(vs, i, Dest::Named(g), n);
    }
    assert(resolved(w).named_groups =~= resolved(vs).named_groups);
}

/// Removing a member annotated `default` takes it out of the default group
/// and changes nothing else.
pub proof fn lemma_remove_default(vs: Seq<(Seq<char>, Ann)>, i: int)
    requires
        0 <= i < vs.len(),
        vs[i].1 == Ann::Default,
    ensures
        resolved(vs.remove(i)).default_group
            == resolved(vs).default_group.remove(members_to(vs, Dest::DefaultGroup, i).len() as int),
        resolved(vs.remove(i)).named_groups == resolved(vs).named_groups,
{
    let w = vs.remove(i);
    let n = w.len() as int;
    lemma_remove_own_group(vs, i, n);
    lemma_remove_keeps_names(vs, i, n);
    assert forall|g: Seq<char>| #[trigger] members_to(w, Dest::Named(g), n) == members_to(vs, Dest::Named(g), n + 1) by {
        lemma_remove_other_group(vs, i, Dest::Named(g), n);
    }
    assert(resolved(w).named_groups =~= resolved(vs).named_groups);
}

/// Removing a member annotated with a bare group name `g` takes it out of
/// `g`; the default group and every other group keep their members.
pub proof fn lemma_remove_single(vs: Seq<(Seq<char>, Ann)>, i: int, g: Seq<char>)
    requires
        0 <= i < vs.len(),
        vs[i].1 == Ann::Single(g),
    ensures
        members_to(vs.remove(i), Dest::Named(g), vs.len() - 1)
            == members_to(vs, Dest::Named(g), vs.len() as int).remove(members_to(vs, Dest::Named(g), i).len() as int),
        resolved(vs.remove(i)).default_group == resolved(vs).default_group,
        forall|h: Seq<char>| h != g ==>
            #[trigger] members_to(vs.remove(i), Dest::Named(h), vs.len() - 1) == members_to(vs, Dest::Named(h), vs.len() as int),
{
    let n = vs.len() - 1;
    lemma_remove_own_group(vs, i, n);
    lemma_remove_other_group(vs, i, Dest::DefaultGroup, n);
    assert forall|h: Seq<char>| h != g implies
        #[trigger] members_to(vs.remove(i), Dest::Named(h), vs.len() - 1) == members_to(vs, Dest::Named(h), vs.len() as int) by {
        lemma_remove_other_group(vs, i, Dest::Named(h), n);
    }
}

fn find_group(named: &Vec<Group>, name: &String) -> (r: Option<usize>)
    ensures
        match r {
            Some(k) => k < named@.len() && named@[k as int].name@ == name@,
            None => forall|j: int| 0 <= j < named@.len() ==> named@[j].name@ != name@,
        },
{
    let mut i: usize = 0;
    while i < named.len()
        invariant
            i <= named@.len(),
            forall|j: int| 0 <= j < i ==> named@[j].name@ != name@,
        decreases named.len() - i,
    {
        if named[i].name == *name {
            return Some(i);
        }
        i = i + 1;
    }
    None
}

/// Resolves the groups of a list of validated members in one pass.
#[verifier::spinoff_prover]
pub fn resolve(vs: &Vec<Variant>) -> (r: Grouping)
    ensures
        r@ == resolved(variant_views(vs@)),
{
    let ghost w = variant_views(vs@);
    let mut default_group: Vec<String> = Vec::new();
    let mut named: Vec<Group> = Vec::new();
    let mut active: Option<usize> = None;
    let mut i: usize = 0;
    while i < vs.len()
        invariant
            i <= vs@.len(),
            w == variant_views(vs@),
            texts(default_group@) == members_to(w, Dest::DefaultGroup, i as int),
            groups_match(w, named@, i as int),
            match active {
                Some(k) => k < named@.len() && active_before(w, i as int) == Some(named@[k as int].name@),
                None => active_before(w, i as int) is None,
            },
        decreases vs.len() - i,
    {
        let ghost names = group_names(w, i as int);
        proof { lemma_group_names_distinct(w, i as int); }
        let v = &vs[i];
        let ident = v.ident.clone();
        let ghost old_default = default_group@;
        let ghost old_named = named@;
        match &v.attr {
            Annotation::Skip => {
                proof { lemma_named_unchanged(w, i as int, named@); }
            },
            Annotation::Default => {
                proof { lemma_named_unchanged(w, i as int, named@); }
                default_group.push(ident);
                assert(texts(default_group@) == texts(old_default).push(ident@));
            },
            Annotation::Unannotated => match active {
                None => {
                    assert(dest(w, i as int) == Dest::DefaultGroup);
                    proof { lemma_named_unchanged(w, i as int, named@); }
                    default_group.push(ident);
                    assert(texts(default_group@) == texts(old_default).push(ident@));
                },
                Some(k) => {
                    assert(group_matches(w, named@[k as int], i as int, k as int));
                    let ghost g = names[k as int];
                    assert(dest(w, i as int) == Dest::Named(g));
                    proof { lemma_named_step(w, i as int, g); }
                    assert(names.contains(g));
                    named[k].members.push(ident);
                    assert(texts(named@[k as int].members@) == texts(old_named[k as int].members@).push(ident@));
                    proof { lemma_named_append(w, i as int, g, old_named, named@, k as int); }
                },
            },
            Annotation::Start(g) | Annotation::Single(g) => {
                assert(dest(w, i as int) == Dest::Named(g@));
                let k = match find_group(&named, g) {
                    Some(k) => {
                        assert(group_matches(w, named@[k as int], i as int, k as int));
                        assert(names[k as int] == g@);
                        assert(names.contains(g@));
                        assert(group_names(w, i + 1) == names);
                        k
                    },
                    None => {
                        assert(!names.contains(g@)) by {
                            if names.contains(g@) {
                                let j = choose|j: int| 0 <= j < names.len() && names[j] == g@;
                                assert(group_matches(w, named@[j], i as int, j));
                            }
                        }
                        assert(group_names(w, i + 1) == names.push(g@));
                        proof { lemma_unseen_group_empty(w, g@, i as int); }
                        named.push(Group { name: g.clone(), members: Vec::new() });
                        assert(texts(named@[named@.len() - 1].members@) == Seq::<Seq<char>>::empty());
                        named.len() - 1
                    },
                };
                let ghost mid_named = named@;
                proof { lemma_named_step(w, i as int, g@); }
                named[k].members.push(ident);
                assert(texts(named@[k as int].members@) == texts(mid_named[k as int].members@).push(ident@));
                proof { lemma_named_append(w, i as int, g@, old_named, named@, k as int); }
                if let Annotation::Start(_) = &v.attr {
                    active = Some(k);
                }
            },
        }
        i = i + 1;
    }
    let r = Grouping { default_group, named_groups: named };
    assert forall|k: int| 0 <= k < named@.len() implies r@.named_groups[k] == resolved(w).named_groups[k] by {
        assert(group_matches(w, named@[k], i as int, k));
    }
    assert(r@.named_groups =~= resolved(w).named_groups);
    r
}

} // verus!
