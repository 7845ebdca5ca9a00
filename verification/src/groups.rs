//! Related entries: entries that share a group number are related to one
//! another. Linking, unlinking and deleting decide which group numbers to
//! write; the store performs the writes.
//!
//! The group numbers of the stored entries are modelled as a map from entry
//! id to its group, or to nothing for an entry related to no other.

use vstd::prelude::*;

verus! {

/// A write to the group numbers of the stored entries.
#[derive(Clone, Copy, Debug, PartialEq, Eq, Structural)]
pub enum GroupWrite {
    /// Put entry `id` in `group`, or in none.
    SetGroup { id: i64, group: Option<i64> },
    /// Move every entry of group `from` to group `to`, or to none.
    MoveGroup { from: i64, to: Option<i64> },
}

/// A stored group number as a mathematical one.
pub open spec fn group_value(g: Option<i64>) -> Option<int> {
    match g {
        Some(n) => Some(n as int),
        None => None,
    }
}

/// The group numbers after one write. Writing to an entry that is not
/// stored changes nothing.
pub open spec fn apply_write(groups: Map<int, Option<int>>, w: GroupWrite) -> Map<int, Option<int>> {
    match w {
        GroupWrite::SetGroup { id, group } => if groups.dom().contains(id as int) {
            groups.insert(id as int, group_value(group))
        } else {
            groups
        },
        GroupWrite::MoveGroup { from, to } => Map::new(
            |k: int| groups.dom().contains(k),
            |k: int| if groups[k] == Some(from as int) { group_value(to) } else { groups[k] },
        ),
    }
}

/// The group numbers after the writes, in order.
pub open spec fn apply_writes(groups: Map<int, Option<int>>, ws: Seq<GroupWrite>) -> Map<int, Option<int>>
    decreases ws.len(),
{
    if ws.len() == 0 {
        groups
    } else {
        apply_writes(apply_write(groups, ws[0]), ws.drop_first())
    }
}

/// Whether two different stored entries are related: they share a group.
pub open spec fn related(groups: Map<int, Option<int>>, a: int, b: int) -> bool {
    &&& a != b
    &&& groups.dom().contains(a)
    &&& groups.dom().contains(b)
    &&& groups[a] is Some
    &&& groups[a] == groups[b]
}

/// Whether every entry in a group has some other entry in it.
pub open spec fn no_lonely_groups(groups: Map<int, Option<int>>) -> bool {
    forall|a: int|
        #![trigger groups[a]]
        groups.dom().contains(a) && groups[a] is Some ==> exists|b: int| related(groups, a, b)
}

/// Whether group `g` has two different entries.
pub open spec fn has_two_members(groups: Map<int, Option<int>>, g: int) -> bool {
    exists|x: int, y: int|
        x != y && groups.dom().contains(x) && groups.dom().contains(y) && groups[x] == Some(g)
            && groups[y] == Some(g)
}

/// Whether every group number in use is at most `max`.
pub open spec fn groups_at_most(groups: Map<int, Option<int>>, max: int) -> bool {
    forall|a: int| #![trigger groups[a]] groups.dom().contains(a) && groups[a] is Some ==> groups[a]->0 <= max
}

/// The writes that link entries `a` and `b`, whose groups are `ga` and
/// `gb`, while `max` is the largest group number in use (zero for none):
/// two ungrouped entries start the group after `max`; an ungrouped entry
/// joins the other's group; two different groups merge into `a`'s.
pub open spec fn link_plan(a: i64, b: i64, ga: Option<i64>, gb: Option<i64>, max: i64) -> Seq<GroupWrite> {
    if a == b {
        Seq::empty()
    } else {
        match (ga, gb) {
            (None, None) => seq![
                GroupWrite::SetGroup { id: a, group: Some((max + 1) as i64) },
                GroupWrite::SetGroup { id: b, group: Some((max + 1) as i64) },
            ],
            (Some(g), None) => seq![GroupWrite::SetGroup { id: b, group: Some(g) }],
            (None, Some(g)) => seq![GroupWrite::SetGroup { id: a, group: Some(g) }],
            (Some(keep), Some(merge)) => if keep != merge {
                seq![GroupWrite::MoveGroup { from: merge, to: Some(keep) }]
            } else {
                Seq::empty()
            },
        }
    }
}

/// The writes that link entry `entry_id` (in group `entry_group`) with
/// entry `linked_id` (in group `linked_group`), as [`link_plan`] says.
pub fn link_writes(
    entry_id: i64,
    linked_id: i64,
    entry_group: Option<i64>,
    linked_group: Option<i64>,
    max_group: i64,
) -> (r: Vec<GroupWrite>)
    requires
        entry_group is None && linked_group is None ==> max_group < i64::MAX,
    ensures
        r@ == link_plan(entry_id, linked_id, entry_group, linked_group, max_group),
{
    if entry_id == linked_id {
        return Vec::new();
    }
    let mut writes: Vec<GroupWrite> = Vec::new();
    match (entry_group, linked_group) {
        (None, None) => {
            let next = max_group + 1;
            writes.push(GroupWrite::SetGroup { id: entry_id, group: Some(next) });
            writes.push(GroupWrite::SetGroup { id: linked_id, group: Some(next) });
        },
        (Some(group), None) => {
            writes.push(GroupWrite::SetGroup { id: linked_id, group: Some(group) });
        },
        (None, Some(group)) => {
            writes.push(GroupWrite::SetGroup { id: entry_id, group: Some(group) });
        },
        (Some(keep), Some(merge)) => {
            if keep != merge {
                writes.push(GroupWrite::MoveGroup { from: merge, to: Some(keep) });
            }
        },
    }
    assert(writes@ =~= link_plan(entry_id, linked_id, entry_group, linked_group, max_group));
    writes
}

/// The writes that dissolve group `group` once `remaining` entries are left
/// in it: a group of one or none is dissolved.
pub open spec fn dissolve_plan(group: i64, remaining: i64) -> Seq<GroupWrite> {
    if remaining <= 1 {
        seq![GroupWrite::MoveGroup { from: group, to: None }]
    } else {
        Seq::empty()
    }
}

/// The writes that dissolve a group left with `remaining` entries, as
/// [`dissolve_plan`] says.
pub fn dissolve_writes(group: i64, remaining: i64) -> (r: Vec<GroupWrite>)
    ensures
        r@ == dissolve_plan(group, remaining),
{
    let mut writes: Vec<GroupWrite> = Vec::new();
    if remaining <= 1 {
        writes.push(GroupWrite::MoveGroup { from: group, to: None });
    }
    assert(writes@ =~= dissolve_plan(group, remaining));
    writes
}

/// The write that takes entry `id` out of its group, if it has one.
pub open spec fn unlink_plan(id: i64, group: Option<i64>) -> Seq<GroupWrite> {
    match group {
        Some(_) => seq![GroupWrite::SetGroup { id, group: None }],
        None => Seq::empty(),
    }
}

/// The write that takes entry `id` (in group `group`) out of its group, as
/// [`unlink_plan`] says.
pub fn unlink_writes(id: i64, group: Option<i64>) -> (r: Vec<GroupWrite>)
    ensures
        r@ == unlink_plan(id, group),
{
    let mut writes: Vec<GroupWrite> = Vec::new();
    if group.is_some() {
        writes.push(GroupWrite::SetGroup { id, group: None });
    }
    assert(writes@ =~= unlink_plan(id, group));
    writes
}

proof fn lemma_apply_one(groups: Map<int, Option<int>>, w: GroupWrite)
    ensures
        apply_writes(groups, seq![w]) == apply_write(groups, w),
{
    reveal_with_fuel(apply_writes, 2);
    assert(seq![w].drop_first() =~= Seq::<GroupWrite>::empty());
}

proof fn lemma_apply_two(groups: Map<int, Option<int>>, w1: GroupWrite, w2: GroupWrite)
    ensures
        apply_writes(groups, seq![w1, w2]) == apply_write(apply_write(groups, w1), w2),
{
    assert(seq![w1, w2].drop_first() =~= seq![w2]);
    lemma_apply_one(apply_write(groups, w1), w2);
}

/// Linking two different stored entries relates them, keeps every relation
/// there was, keeps the stored entries, and leaves no entry alone in a
/// group.
pub proof fn lemma_link_relates(
    groups: Map<int, Option<int>>,
    a: i64,
    b: i64,
    ga: Option<i64>,
    gb: Option<i64>,
    max: i64,
)
    requires
        a != b,
        groups.dom().contains(a as int),
        groups.dom().contains(b as int),
        groups[a as int] == group_value(ga),
        groups[b as int] == group_value(gb),
        groups_at_most(groups, max as int),
        ga is None && gb is None ==> max < i64::MAX,
    ensures
        ({
            let after = apply_writes(groups, link_plan(a, b, ga, gb, max));
            &&& related(after, a as int, b as int)
            &&& after.dom() == groups.dom()
            &&& forall|x: int, y: int| #[trigger] related(groups, x, y) ==> related(after, x, y)
            &&& no_lonely_groups(groups) ==> no_lonely_groups(after)
        }),
{
    let (ai, bi) = (a as int, b as int);
    let plan = link_plan(a, b, ga, gb, max);
    let after = apply_writes(groups, plan);
    match (ga, gb) {
        (None, None) => {
            let next = (max + 1) as i64;
            let w1 = GroupWrite::SetGroup { id: a, group: Some(next) };
            let w2 = GroupWrite::SetGroup { id: b, group: Some(next) };
            lemma_apply_two(groups, w1, w2);
            assert(after == groups.insert(ai, Some(next as int)).insert(bi, Some(next as int)));
            assert forall|x: int, y: int| #[trigger] related(groups, x, y) implies related(after, x, y) by {
                assert(x != ai && x != bi && y != ai && y != bi);
            }
            assert(after.dom() =~= groups.dom());
            if no_lonely_groups(groups) {
                assert forall|x: int| #![trigger after[x]] after.dom().contains(x) && after[x] is Some implies exists|y: int| related(after, x, y) by {
                    if x == ai {
                        assert(related(after, x, bi));
                    } else if x == bi {
                        assert(related(after, x, ai));
                    } else {
                        assert(groups[x] is Some);
                        let y = choose|y: int| related(groups, x, y);
                        assert(related(after, x, y));
                    }
                }
            }
        },
        (Some(g), None) => {
            let w = GroupWrite::SetGroup { id: b, group: Some(g) };
            lemma_apply_one(groups, w);
            assert(after == groups.insert(bi, Some(g as int)));
            assert forall|x: int, y: int| #[trigger] related(groups, x, y) implies related(after, x, y) by {
                assert(x != bi && y != bi);
            }
            assert(after.dom() =~= groups.dom());
            if no_lonely_groups(groups) {
                assert forall|x: int| #![trigger after[x]] after.dom().contains(x) && after[x] is Some implies exists|y: int| related(after, x, y) by {
                    if x == bi {
                        assert(related(after, x, ai));
                    } else {
                        assert(groups[x] is Some);
                        let y = choose|y: int| related(groups, x, y);
                        assert(related(after, x, y));
                    }
                }
            }
        },
        (None, Some(g)) => {
            let w = GroupWrite::SetGroup { id: a, group: Some(g) };
            lemma_apply_one(groups, w);
            assert(after == groups.insert(ai, Some(g as int)));
            assert forall|x: int, y: int| #[trigger] related(groups, x, y) implies related(after, x, y) by {
                assert(x != ai && y != ai);
            }
            assert(after.dom() =~= groups.dom());
            if no_lonely_groups(groups) {
                assert forall|x: int| #![trigger after[x]] after.dom().contains(x) && after[x] is Some implies exists|y: int| related(after, x, y) by {
                    if x == ai {
                        assert(related(after, x, bi));
                    } else {
                        assert(groups[x] is Some);
                        let y = choose|y: int| related(groups, x, y);
                        assert(related(after, x, y));
                    }
                }
            }
        },
        (Some(keep), Some(merge)) => {
            if keep != merge {
                let w = GroupWrite::MoveGroup { from: merge, to: Some(keep) };
                lemma_apply_one(groups, w);
                assert(after.dom() =~= groups.dom());
                assert(related(after, ai, bi));
                if no_lonely_groups(groups) {
                    assert forall|x: int| #![trigger after[x]] after.dom().contains(x) && after[x] is Some implies exists|y: int| related(after, x, y) by {
                        assert(groups[x] is Some);
                        if groups[x] == Some(merge as int) {
                            if x != ai {
                                assert(related(after, x, ai));
                            }
                        } else {
                            let y = choose|y: int| related(groups, x, y);
                            assert(related(after, x, y));
                        }
                    }
                }
            } else {
                assert(plan =~= Seq::<GroupWrite>::empty());
            }
        },
    }
}

/// Whether `x` is in the class of `a`: `a` itself, or an entry related to it.
pub open spec fn in_class(groups: Map<int, Option<int>>, a: int, x: int) -> bool {
    x == a || related(groups, a, x)
}

/// Whether two different entries both lie in the class of `a` or of `b`, so
/// that linking `a` with `b` relates them.
pub open spec fn joined_by_link(groups: Map<int, Option<int>>, a: int, b: int, x: int, y: int) -> bool {
    &&& x != y
    &&& in_class(groups, a, x) || in_class(groups, b, x)
    &&& in_class(groups, a, y) || in_class(groups, b, y)
}

/// Linking `a` with `b` merges their classes and nothing else: two entries
/// are related afterwards exactly when they were before or both lie in the
/// class of `a` or of `b`; an entry in neither class keeps its group; linking
/// an entry with itself changes nothing.
pub proof fn lemma_link_merges_classes(
    groups: Map<int, Option<int>>,
    a: i64,
    b: i64,
    ga: Option<i64>,
    gb: Option<i64>,
    max: i64,
)
    requires
        groups.dom().contains(a as int),
        groups.dom().contains(b as int),
        groups[a as int] == group_value(ga),
        groups[b as int] == group_value(gb),
        groups_at_most(groups, max as int),
        ga is None && gb is None ==> max < i64::MAX,
    ensures
        ({
            let after = apply_writes(groups, link_plan(a, b, ga, gb, max));
            &&& a == b ==> after == groups
            &&& forall|x: int|
                #![trigger after[x]]
                groups.dom().contains(x) && !in_class(groups, a as int, x) && !in_class(groups, b as int, x)
                    ==> after[x] == groups[x]
            &&& forall|x: int, y: int|
                #[trigger] related(after, x, y) == (related(groups, x, y) || joined_by_link(
                    groups,
                    a as int,
                    b as int,
                    x,
                    y,
                ))
        }),
{
    let (ai, bi) = (a as int, b as int);
    let plan = link_plan(a, b, ga, gb, max);
    let after = apply_writes(groups, plan);
    if a == b || (ga is Some && ga == gb) {
        assert(plan =~= Seq::<GroupWrite>::empty());
        assert(after == groups);
        assert forall|x: int, y: int| joined_by_link(groups, ai, bi, x, y) implies #[trigger] related(groups, x, y) by {
            if a != b {
                assert(related(groups, ai, bi));
            }
        }
    } else {
        match (ga, gb) {
            (None, None) => {
                let next = (max + 1) as i64;
                let w1 = GroupWrite::SetGroup { id: a, group: Some(next) };
                let w2 = GroupWrite::SetGroup { id: b, group: Some(next) };
                lemma_apply_two(groups, w1, w2);
                assert(after == groups.insert(ai, Some(next as int)).insert(bi, Some(next as int)));
                assert forall|x: int, y: int| #[trigger] related(after, x, y) == (related(groups, x, y) || joined_by_link(
                    groups,
                    ai,
                    bi,
                    x,
                    y,
                )) by {
                    if groups.dom().contains(x) && groups[x] is Some {
                        assert(groups[x]->0 <= max);
                    }
                    if groups.dom().contains(y) && groups[y] is Some {
                        assert(groups[y]->0 <= max);
                    }
                }
            },
            (Some(g), None) => {
                let w = GroupWrite::SetGroup { id: b, group: Some(g) };
                lemma_apply_one(groups, w);
                assert(after == groups.insert(bi, Some(g as int)));
            },
            (None, Some(g)) => {
                let w = GroupWrite::SetGroup { id: a, group: Some(g) };
                lemma_apply_one(groups, w);
                assert(after == groups.insert(ai, Some(g as int)));
            },
            (Some(keep), Some(merge)) => {
                let w = GroupWrite::MoveGroup { from: merge, to: Some(keep) };
                lemma_apply_one(groups, w);
                assert(after.dom() =~= groups.dom());
            },
        }
    }
}

/// Once a group has lost entry `id` (left with `remaining` entries, as the
/// store counts them), dissolving it where needed relates `id` to nothing,
/// keeps every relation between other entries, and leaves no entry alone in
/// a group.
proof fn lemma_dissolve_after_leaving(
    groups: Map<int, Option<int>>,
    mid: Map<int, Option<int>>,
    id: int,
    g: i64,
    remaining: i64,
)
    requires
        groups.dom().contains(id),
        groups[id] == Some(g as int),
        mid.dom() == groups.dom() || mid.dom() == groups.dom().remove(id),
        mid.dom().contains(id) ==> mid[id] is None,
        forall|k: int| #![trigger mid[k]] mid.dom().contains(k) && k != id ==> mid[k] == groups[k],
        (remaining <= 1) == !has_two_members(mid, g as int),
    ensures
        ({
            let after = apply_writes(mid, dissolve_plan(g, remaining));
            &&& forall|x: int| !(#[trigger] related(after, id, x))
            &&& forall|x: int, y: int|
                x != id && y != id ==> (#[trigger] related(after, x, y) == related(groups, x, y))
            &&& no_lonely_groups(groups) ==> no_lonely_groups(after)
        }),
{
    let after = apply_writes(mid, dissolve_plan(g, remaining));
    if remaining <= 1 {
        lemma_apply_one(mid, GroupWrite::MoveGroup { from: g, to: None });
        assert forall|x: int, y: int|
            x != id && y != id implies (#[trigger] related(after, x, y) == related(groups, x, y)) by {
            if related(groups, x, y) && groups[x] == Some(g as int) {
                assert(mid.dom().contains(x) && mid.dom().contains(y));
                assert(mid[x] == Some(g as int) && mid[y] == Some(g as int));
                assert(has_two_members(mid, g as int));
            }
        }
        assert forall|x: int| !(#[trigger] related(after, id, x)) by {
            if mid.dom().contains(id) {
                assert(after[id] is None);
            }
        }
        if no_lonely_groups(groups) {
            assert forall|x: int| #![trigger after[x]] after.dom().contains(x) && after[x] is Some implies exists|y: int| related(after, x, y) by {
                assert(x != id);
                assert(mid[x] != Some(g as int));
                assert(groups[x] is Some);
                let y = choose|y: int| related(groups, x, y);
                assert(y != id);
                assert(related(after, x, y));
            }
        }
    } else {
        assert forall|x: int| !(#[trigger] related(after, id, x)) by {
            if mid.dom().contains(id) {
                assert(after[id] is None);
            }
        }
        assert(after == mid);
        if no_lonely_groups(groups) {
            assert forall|x: int| #![trigger after[x]] after.dom().contains(x) && after[x] is Some implies exists|y: int| related(after, x, y) by {
                assert(x != id);
                assert(groups[x] is Some);
                if groups[x] == Some(g as int) {
                    let (p, q) = choose|p: int, q: int|
                        p != q && mid.dom().contains(p) && mid.dom().contains(q) && mid[p] == Some(g as int)
                            && mid[q] == Some(g as int);
                    if p != x {
                        assert(related(after, x, p));
                    } else {
                        assert(related(after, x, q));
                    }
                } else {
                    let y = choose|y: int| related(groups, x, y);
                    assert(y != id);
                    assert(related(after, x, y));
                }
            }
        }
    }
}

/// Unlinking entry `id` from group `g` takes it out of its group and
/// relates it to nothing. Where one entry or none is left in `g`, the group
/// is dissolved; otherwise the others stay in `g`. Every other entry keeps
/// its group, every relation between other entries is kept, and no entry is
/// left alone in a group. `remaining` is the number of entries the store
/// counts in the group once `id` has left it.
pub proof fn lemma_unlink_isolates(groups: Map<int, Option<int>>, id: i64, g: i64, remaining: i64)
    requires
        groups.dom().contains(id as int),
        groups[id as int] == Some(g as int),
        (remaining <= 1) == !has_two_members(
            apply_writes(groups, unlink_plan(id, Some(g))),
            g as int,
        ),
    ensures
        ({
            let mid = apply_writes(groups, unlink_plan(id, Some(g)));
            let after = apply_writes(mid, dissolve_plan(g, remaining));
            &&& after.dom() == groups.dom()
            &&& after[id as int] is None
            &&& forall|x: int|
                #![trigger after[x]]
                after.dom().contains(x) && x != id ==> after[x] == if remaining <= 1 && groups[x] == Some(g as int) {
                    None
                } else {
                    groups[x]
                }
            &&& forall|x: int| !(#[trigger] related(after, id as int, x))
            &&& forall|x: int, y: int|
                x != id && y != id ==> (#[trigger] related(after, x, y) == related(groups, x, y))
            &&& no_lonely_groups(groups) ==> no_lonely_groups(after)
        }),
{
    let w = GroupWrite::SetGroup { id, group: None };
    lemma_apply_one(groups, w);
    let mid = apply_writes(groups, unlink_plan(id, Some(g)));
    assert(mid == groups.insert(id as int, None));
    assert(mid.dom() =~= groups.dom());
    lemma_dissolve_after_leaving(groups, mid, id as int, g, remaining);
    let after = apply_writes(mid, dissolve_plan(g, remaining));
    if remaining <= 1 {
        lemma_apply_one(mid, GroupWrite::MoveGroup { from: g, to: None });
    }
    assert(after.dom() =~= groups.dom());
}

/// Deleting entry `id`, a member of group `g`, and then dissolving the group
/// where one entry or none is left in it, keeps every other entry's group
/// (but for that dissolving), keeps every relation between the other
/// entries and leaves no entry alone in a group. `remaining` is the number of entries the store
/// counts in the group after the deletion.
pub proof fn lemma_delete_keeps_groups_whole(groups: Map<int, Option<int>>, id: i64, g: i64, remaining: i64)
    requires
        groups.dom().contains(id as int),
        groups[id as int] == Some(g as int),
        (remaining <= 1) == !has_two_members(groups.remove(id as int), g as int),
    ensures
        ({
            let after = apply_writes(groups.remove(id as int), dissolve_plan(g, remaining));
            &&& after.dom() == groups.dom().remove(id as int)
            &&& forall|x: int|
                #![trigger after[x]]
                after.dom().contains(x) ==> after[x] == if remaining <= 1 && groups[x] == Some(g as int) {
                    None
                } else {
                    groups[x]
                }
            &&& forall|x: int, y: int|
                x != id && y != id ==> (#[trigger] related(after, x, y) == related(groups, x, y))
            &&& no_lonely_groups(groups) ==> no_lonely_groups(after)
        }),
{
    let mid = groups.remove(id as int);
    lemma_dissolve_after_leaving(groups, mid, id as int, g, remaining);
    if remaining <= 1 {
        lemma_apply_one(mid, GroupWrite::MoveGroup { from: g, to: None });
    }
    let after = apply_writes(mid, dissolve_plan(g, remaining));
    assert(after.dom() =~= groups.dom().remove(id as int));
}

} // verus!
