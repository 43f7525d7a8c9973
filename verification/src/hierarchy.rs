//! Presentation-only hierarchy for graph nodes.
//!
//! Callers provide already-resolved group segments. This keeps package naming
//! rules in the language adapter while giving every renderer the same stable,
//! language-neutral hierarchy contract.

use vstd::prelude::*;

use crate::order::{key_compare, key_view, AtomView, KeyAtom};
use crate::text::{copy_string, decimal, push_char, push_decimal, push_text};

verus! {

#[derive(Debug)]
pub struct DependencyHierarchyMember {
    pub node_id: String,
    pub group_segments: Vec<String>,
}

#[derive(Debug)]
pub struct DependencyHierarchyGroup {
    pub id: String,
    pub name: String,
    pub qualified_name: String,
    pub parent: Option<String>,
    pub direct_modules: Vec<String>,
    pub descendants: Vec<String>,
}

/// The segments of a member, as text.
pub open spec fn segments(m: DependencyHierarchyMember) -> Seq<Seq<char>> {
    m.group_segments@.map_values(|s: String| s@)
}

/// The order key of a group path: its segments in order.
pub open spec fn path_key(p: Seq<Seq<char>>) -> Seq<AtomView> {
    p.map_values(|s: Seq<char>| AtomView::Text(s))
}

/// `p` is a non-empty leading part of some member's segments.
pub open spec fn is_group_path(members: Seq<DependencyHierarchyMember>, p: Seq<Seq<char>>) -> bool {
    exists|m: int|
        0 <= m < members.len() && 1 <= p.len() <= segments(#[trigger] members[m]).len() && segments(members[m]).take(
            p.len() as int,
        ) == p
}

/// `g{index}`, the index with at least four digits.
pub open spec fn group_id(i: nat) -> Seq<char> {
    let d = decimal(i);
    "g"@ + if d.len() < 4 {
        Seq::new((4 - d.len()) as nat, |k: int| '0')
    } else {
        Seq::empty()
    } + d
}

/// The segments joined with dots.
pub open spec fn join_dots(p: Seq<Seq<char>>) -> Seq<char>
    decreases p.len(),
{
    if p.len() == 0 {
        Seq::empty()
    } else if p.len() == 1 {
        p[0]
    } else {
        join_dots(p.drop_last()) + "."@ + p.last()
    }
}

/// The node ids of the members that `keep` selects, in member order.
pub open spec fn member_ids(
    members: Seq<DependencyHierarchyMember>,
    keep: spec_fn(DependencyHierarchyMember) -> bool,
) -> Seq<Seq<char>>
    decreases members.len(),
{
    if members.len() == 0 {
        Seq::empty()
    } else if keep(members.last()) {
        member_ids(members.drop_last(), keep).push(members.last().node_id@)
    } else {
        member_ids(members.drop_last(), keep)
    }
}

pub open spec fn exactly_at(p: Seq<Seq<char>>) -> spec_fn(DependencyHierarchyMember) -> bool {
    |m: DependencyHierarchyMember| segments(m) == p
}

pub open spec fn under(p: Seq<Seq<char>>) -> spec_fn(DependencyHierarchyMember) -> bool {
    |m: DependencyHierarchyMember| p.len() <= segments(m).len() && segments(m).take(p.len() as int) == p
}

/// `id` is the id of the group of the path above `p`.
pub open spec fn parent_id_ok(paths: Seq<Seq<Seq<char>>>, p: Seq<Seq<char>>, id: Seq<char>) -> bool {
    exists|j: int| 0 <= j < paths.len() && paths[j] == p.drop_last() && id == group_id(j as nat)
}

/// Group `g` is the group of path `paths[i]`.
pub open spec fn group_ok(
    g: DependencyHierarchyGroup,
    members: Seq<DependencyHierarchyMember>,
    paths: Seq<Seq<Seq<char>>>,
    i: int,
) -> bool {
    let p = paths[i];
    &&& g.id@ == group_id(i as nat)
    &&& g.name@ == p.last()
    &&& g.qualified_name@ == join_dots(p)
    &&& (p.len() == 1 ==> g.parent is None)
    &&& (p.len() > 1 ==> g.parent is Some && parent_id_ok(paths, p, g.parent->0@))
    &&& g.direct_modules@.map_values(|s: String| s@) == member_ids(members, exactly_at(p))
    &&& g.descendants@.map_values(|s: String| s@) == member_ids(members, under(p))
}


/// The groups are those of `paths`: every group path, each once, in
/// increasing order.
pub open spec fn hierarchy_layout(
    members: Seq<DependencyHierarchyMember>,
    groups: Seq<DependencyHierarchyGroup>,
    paths: Seq<Seq<Seq<char>>>,
) -> bool {
    &&& forall|i: int, j: int| 0 <= i < j < paths.len() ==> key_compare(path_key(paths[i]), path_key(paths[j])) == -1
    &&& forall|i: int| 0 <= i < paths.len() ==> is_group_path(members, #[trigger] paths[i])
    &&& forall|p: Seq<Seq<char>>| is_group_path(members, p) ==> #[trigger] path_listed(paths, p)
    &&& groups.len() == paths.len()
    &&& forall|i: int| 0 <= i < groups.len() ==> group_ok(#[trigger] groups[i], members, paths, i)
}

/// Some entry records member `y` at depth `d`.
pub open spec fn has_entry(at: Seq<(usize, usize)>, y: int, d: int) -> bool {
    exists|x: int| 0 <= x < at.len() && at[x] == (y as usize, d as usize)
}

pub open spec fn path_listed(paths: Seq<Seq<Seq<char>>>, p: Seq<Seq<char>>) -> bool {
    exists|i: int| 0 <= i < paths.len() && paths[i] == p
}

/// `groups` is the hierarchy of `members`.
pub open spec fn is_hierarchy_of(members: Seq<DependencyHierarchyMember>, groups: Seq<DependencyHierarchyGroup>) -> bool {
    exists|paths: Seq<Seq<Seq<char>>>| #[trigger] hierarchy_layout(members, groups, paths)
}

proof fn lemma_path_key_injective(a: Seq<Seq<char>>, b: Seq<Seq<char>>)
    requires
        path_key(a) == path_key(b),
    ensures
        a == b,
{
    assert(path_key(a).len() == a.len());
    assert(path_key(b).len() == b.len());
    assert(a.len() == b.len());
    assert forall|i: int| 0 <= i < a.len() implies a[i] == b[i] by {
        assert(path_key(a)[i] == AtomView::Text(a[i]));
        assert(path_key(b)[i] == AtomView::Text(b[i]));
    }
    assert(a =~= b);
}

fn prefix_key(m: &DependencyHierarchyMember, depth: usize) -> (k: Vec<KeyAtom>)
    requires
        depth <= m.group_segments.len(),
    ensures
        key_view(k@) == path_key(segments(*m).take(depth as int)),
{
    let mut k: Vec<KeyAtom> = Vec::new();
    let mut i: usize = 0;
    while i < depth
        invariant
            i <= depth,
            depth <= m.group_segments.len(),
            key_view(k@) == path_key(segments(*m).take(i as int)),
        decreases depth - i,
    {
        crate::dependencies::push_text_atom(&mut k, m.group_segments[i].as_str());
        i = i + 1;
        assert(key_view(k@) =~= path_key(segments(*m).take(i as int)));
    }
    k
}

fn group_id_text(i: usize) -> (s: String)
    ensures
        s@ == group_id(i as nat),
{
    let mut s = String::new();
    push_char(&mut s, 'g');
    let d = crate::text::decimal_text(i as u64);
    let mut pad: usize = d.unicode_len();
    let ghost zeros: Seq<char> = if d@.len() < 4 { Seq::new((4 - d@.len()) as nat, |k: int| '0') } else { Seq::empty() };
    let mut written: usize = 0;
    while pad < 4
        invariant
            d@ == decimal(i as nat),
            pad == d@.len() + written,
            pad <= 4 || written == 0,
            s@ == seq!['g'] + Seq::new(written as nat, |k: int| '0'),
        decreases 4 - pad,
    {
        push_char(&mut s, '0');
        written = written + 1;
        pad = pad + 1;
        assert(s@ =~= seq!['g'] + Seq::new(written as nat, |k: int| '0'));
    }
    push_text(&mut s, d.as_str());
    proof {
        reveal_strlit("g");
        assert(Seq::new(written as nat, |k: int| '0') =~= zeros);
        assert(s@ =~= group_id(i as nat));
    }
    s
}

fn join_with_dots(m: &DependencyHierarchyMember, depth: usize) -> (s: String)
    requires
        1 <= depth <= m.group_segments.len(),
    ensures
        s@ == join_dots(segments(*m).take(depth as int)),
{
    let mut s = copy_string(&m.group_segments[0]);
    proof {
        assert(segments(*m).take(1).len() == 1);
    }
    let mut i: usize = 1;
    while i < depth
        invariant
            1 <= i <= depth,
            depth <= m.group_segments.len(),
            s@ == join_dots(segments(*m).take(i as int)),
        decreases depth - i,
    {
        push_text(&mut s, ".");
        push_text(&mut s, m.group_segments[i].as_str());
        proof {
            let t = segments(*m).take(i + 1);
            assert(t.drop_last() =~= segments(*m).take(i as int));
            assert(t.last() == m.group_segments[i as int]@);
        }
        i = i + 1;
    }
    s
}

fn same_segments(a: &Vec<String>, b: &DependencyHierarchyMember, depth: usize, exact: bool) -> (r: bool)
    requires
        depth <= a.len(),
    ensures
        r == (if exact {
            segments(*b) == a@.map_values(|x: String| x@).take(depth as int)
        } else {
            depth <= segments(*b).len() && segments(*b).take(depth as int) == a@.map_values(|x: String| x@).take(depth as int)
        }),
{
    let sb = &b.group_segments;
    if exact && sb.len() != depth {
        proof {
            assert(segments(*b).len() != a@.map_values(|x: String| x@).take(depth as int).len());
        }
        return false;
    }
    if sb.len() < depth {
        proof {
            assert(segments(*b).len() != a@.map_values(|x: String| x@).take(depth as int).len());
        }
        return false;
    }
    let mut i: usize = 0;
    while i < depth
        invariant
            i <= depth,
            depth <= a.len(),
            depth <= sb.len(),
            sb == &b.group_segments,
            forall|x: int| 0 <= x < i ==> a[x]@ == sb[x]@,
        decreases depth - i,
    {
        if !crate::text::text_eq(a[i].as_str(), sb[i].as_str()) {
            proof {
                assert(segments(*b).take(depth as int)[i as int] != a@.map_values(|x: String| x@).take(depth as int)[i as int]);
                if exact {
                    assert(segments(*b)[i as int] != a@.map_values(|x: String| x@).take(depth as int)[i as int]);
                }
            }
            return false;
        }
        i = i + 1;
    }
    proof {
        assert(segments(*b).take(depth as int) =~= a@.map_values(|x: String| x@).take(depth as int));
        if exact {
            assert(segments(*b) =~= segments(*b).take(depth as int));
        }
    }
    true
}

/// Groups the members by their resolved segments: one group for every
/// leading part of some member's segments, in increasing path order.
pub fn build_dependency_hierarchy(members: &Vec<DependencyHierarchyMember>) -> (groups: Vec<DependencyHierarchyGroup>)
    requires
        members.len() < usize::MAX,
        forall|m: int| 0 <= m < members.len() ==> (#[trigger] members[m]).group_segments.len() < usize::MAX,
    ensures
        is_hierarchy_of(members@, groups@),
{
    // Every leading part, by member and depth.
    let mut keys: Vec<Vec<KeyAtom>> = Vec::new();
    let mut at: Vec<(usize, usize)> = Vec::new();
    let mut m: usize = 0;
    while m < members.len()
        invariant
            m <= members.len(),
            forall|x: int| 0 <= x < members.len() ==> (#[trigger] members[x]).group_segments.len() < usize::MAX,
            keys.len() == at.len(),
            forall|x: int| 0 <= x < at.len() ==> (#[trigger] at[x]).0 < members.len() && 1 <= at[x].1 <= members[at[x].0 as int].group_segments.len(),
            forall|x: int| 0 <= x < at.len() ==> key_view(#[trigger] keys[x]@) == path_key(segments(members[at[x].0 as int]).take(at[x].1 as int)),
            forall|y: int, d: int| 0 <= y < m && 1 <= d <= members[y].group_segments.len() ==> #[trigger] has_entry(at@, y, d),
        decreases members.len() - m,
    {
        let mut d: usize = 1;
        while d <= members[m].group_segments.len()
            invariant
                m < members.len(),
                1 <= d <= members[m as int].group_segments.len() + 1,
                members[m as int].group_segments.len() < usize::MAX,
                keys.len() == at.len(),
                forall|x: int| 0 <= x < at.len() ==> (#[trigger] at[x]).0 < members.len() && 1 <= at[x].1 <= members[at[x].0 as int].group_segments.len(),
                forall|x: int| 0 <= x < at.len() ==> key_view(#[trigger] keys[x]@) == path_key(segments(members[at[x].0 as int]).take(at[x].1 as int)),
                forall|y: int, d2: int| 0 <= y < m && 1 <= d2 <= members[y].group_segments.len() ==> #[trigger] has_entry(at@, y, d2),
                forall|d2: int| 1 <= d2 < d ==> #[trigger] has_entry(at@, m as int, d2),
            decreases members[m as int].group_segments.len() + 1 - d,
        {
            keys.push(prefix_key(&members[m], d));
            let ghost old_at = at@;
            at.push((m, d));
            proof {
                assert forall|y: int, d2: int| 0 <= y < m && 1 <= d2 <= members[y].group_segments.len() implies #[trigger] has_entry(at@, y, d2) by {
                    assert(has_entry(old_at, y, d2));
                    let x = choose|x: int| 0 <= x < old_at.len() && old_at[x] == (y as usize, d2 as usize);
                    assert(at[x] == old_at[x]);
                }
                assert forall|d2: int| 1 <= d2 < d + 1 implies #[trigger] has_entry(at@, m as int, d2) by {
                    if d2 < d {
                        assert(has_entry(old_at, m as int, d2));
                        let x = choose|x: int| 0 <= x < old_at.len() && old_at[x] == (m as usize, d2 as usize);
                        assert(at[x] == old_at[x]);
                    } else {
                        assert(at[at.len() - 1] == (m, d));
                    }
                }
            }
            d = d + 1;
        }
        m = m + 1;
    }
    let order = crate::order::unique_sorted_order(&keys);
    let ghost kv = crate::order::keys_view(keys@);
    let ghost paths: Seq<Seq<Seq<char>>> = order@.map_values(|x: usize| segments(members[at[x as int].0 as int]).take(at[x as int].1 as int));
    // Keys of the distinct paths, for finding parents.
    let mut pkeys: Vec<Vec<KeyAtom>> = Vec::new();
    let mut p: usize = 0;
    while p < order.len()
        invariant
            p <= order.len(),
            keys.len() == at.len(),
            forall|x: int| 0 <= x < order.len() ==> #[trigger] order[x] < keys.len(),
            forall|x: int| 0 <= x < at.len() ==> (#[trigger] at[x]).0 < members.len() && 1 <= at[x].1 <= members[at[x].0 as int].group_segments.len(),
            pkeys.len() == p,
            forall|x: int| 0 <= x < p ==> key_view(#[trigger] pkeys[x]@) == path_key(paths[x]),
            paths == order@.map_values(|x: usize| segments(members[at[x as int].0 as int]).take(at[x as int].1 as int)),
        decreases order.len() - p,
    {
        let (mi, di) = at[order[p]];
        pkeys.push(prefix_key(&members[mi], di));
        p = p + 1;
    }
    proof {
        assert forall|x: int| 0 <= x < keys.len() implies #[trigger] kv[x] == path_key(segments(members[at[x].0 as int]).take(at[x].1 as int)) by {}
        assert forall|a: int, b: int| 0 <= a < b < pkeys.len() implies key_compare(key_view(pkeys[a]@), key_view(pkeys[b]@)) == -1 by {
            assert(kv[order[a] as int] == key_view(pkeys[a]@));
            assert(kv[order[b] as int] == key_view(pkeys[b]@));
        }
    }
    proof {
        assert forall|x: int, d2: int| 0 <= x < members.len() && 1 <= d2 <= members[x].group_segments.len() implies #[trigger] path_listed(paths, segments(members[x]).take(d2)) by {
            assert(has_entry(at@, x, d2));
            let e = choose|e: int| 0 <= e < at.len() && at[e] == (x as usize, d2 as usize);
            assert(kv[e] == path_key(segments(members[x]).take(d2)));
            assert(crate::order::covers_key(kv, order@, e));
            let q = choose|q: int| 0 <= q < order.len() && kv[order[q] as int] == kv[e];
            assert(kv[order[q] as int] == path_key(paths[q]));
            lemma_path_key_injective(paths[q], segments(members[x]).take(d2));
        }
    }
    let mut groups: Vec<DependencyHierarchyGroup> = Vec::new();
    let mut g: usize = 0;
    while g < order.len()
        invariant
            g <= order.len(),
            keys.len() == at.len(),
            pkeys.len() == order.len(),
            forall|x: int| 0 <= x < order.len() ==> #[trigger] order[x] < keys.len(),
            forall|x: int| 0 <= x < at.len() ==> (#[trigger] at[x]).0 < members.len() && 1 <= at[x].1 <= members[at[x].0 as int].group_segments.len(),
            forall|x: int| 0 <= x < order.len() ==> key_view(#[trigger] pkeys[x]@) == path_key(paths[x]),
            forall|a: int, b: int| 0 <= a < b < pkeys.len() ==> key_compare(key_view(pkeys[a]@), key_view(pkeys[b]@)) == -1,
            paths == order@.map_values(|x: usize| segments(members[at[x as int].0 as int]).take(at[x as int].1 as int)),
            forall|x: int, d2: int| 0 <= x < members.len() && 1 <= d2 <= members[x].group_segments.len() ==> #[trigger] path_listed(paths, segments(members[x]).take(d2)),
            groups.len() == g,
            forall|x: int| 0 <= x < g ==> group_ok(#[trigger] groups[x], members@, paths, x),
        decreases order.len() - g,
    {
        let (mi, di) = at[order[g]];
        let mem = &members[mi];
        let ghost path = paths[g as int];
        proof {
            assert(path == segments(*mem).take(di as int));
        }
        let id = group_id_text(g);
        let name = copy_string(&mem.group_segments[di - 1]);
        let qualified_name = join_with_dots(mem, di);
        let parent = if di > 1 {
            let pk = prefix_key(mem, di - 1);
            proof {
                assert(path_listed(paths, segments(members[mi as int]).take((di - 1) as int)));
                let j = choose|j: int| 0 <= j < paths.len() && paths[j] == segments(members[mi as int]).take((di - 1) as int);
                assert(key_view(pkeys[j]@) == key_view(pk@));
            }
            match crate::order::locate_key(&pkeys, &pk) {
                Some(j) => {
                    proof {
                        lemma_path_key_injective(paths[j as int], segments(*mem).take((di - 1) as int));
                        assert(segments(*mem).take((di - 1) as int) =~= path.drop_last());
                        assert(parent_id_ok(paths, path, group_id(j as nat)));
                    }
                    Some(group_id_text(j))
                },
                None => {
                    proof {
                        let j = choose|j: int| 0 <= j < paths.len() && paths[j] == segments(members[mi as int]).take((di - 1) as int);
                        assert(key_view(pkeys[j]@) != key_view(pk@));
                    }
                    None
                },
            }
        } else {
            None
        };
        let mut direct: Vec<String> = Vec::new();
        let mut desc: Vec<String> = Vec::new();
        let mut y: usize = 0;
        while y < members.len()
            invariant
                y <= members.len(),
                mi < members.len(),
                mem == &members[mi as int],
                1 <= di <= mem.group_segments.len(),
                path == segments(*mem).take(di as int),
                direct@.map_values(|s: String| s@) == member_ids(members@.take(y as int), exactly_at(path)),
                desc@.map_values(|s: String| s@) == member_ids(members@.take(y as int), under(path)),
            decreases members.len() - y,
        {
            let ghost t = members@.take(y + 1);
            proof {
                assert(t.drop_last() =~= members@.take(y as int));
                assert(t.last() == members[y as int]);
                assert(mem.group_segments@.map_values(|x: String| x@).take(di as int) == path);
            }
            let ghost old_direct = direct@;
            let ghost old_desc = desc@;
            if same_segments(&mem.group_segments, &members[y], di, true) {
                direct.push(copy_string(&members[y].node_id));
                proof {
                    assert(direct@.map_values(|s: String| s@) =~= old_direct.map_values(|s: String| s@).push(members[y as int].node_id@));
                }
            }
            if same_segments(&mem.group_segments, &members[y], di, false) {
                desc.push(copy_string(&members[y].node_id));
                proof {
                    assert(desc@.map_values(|s: String| s@) =~= old_desc.map_values(|s: String| s@).push(members[y as int].node_id@));
                }
            }
            y = y + 1;
        }
        proof {
            assert(members@.take(members.len() as int) =~= members@);
        }
        let group = DependencyHierarchyGroup {
            id,
            name,
            qualified_name,
            parent,
            direct_modules: direct,
            descendants: desc,
        };
        proof {
            assert(path.last() == mem.group_segments[di - 1]@);
            assert(path.len() == di);
        }
        let ghost old_groups = groups@;
        groups.push(group);
        proof {
            assert forall|x: int| 0 <= x < g + 1 implies group_ok(#[trigger] groups[x], members@, paths, x) by {
                if x < g {
                    assert(groups[x] == old_groups[x]);
                }
            }
        }
        g = g + 1;
    }
    proof {
        assert forall|i: int, j: int| 0 <= i < j < paths.len() implies key_compare(path_key(paths[i]), path_key(paths[j])) == -1 by {
            assert(key_view(pkeys[i]@) == path_key(paths[i]));
            assert(key_view(pkeys[j]@) == path_key(paths[j]));
        }
        assert forall|i: int| 0 <= i < paths.len() implies is_group_path(members@, #[trigger] paths[i]) by {
            let e = order[i] as int;
            assert(paths[i] == segments(members[at[e].0 as int]).take(at[e].1 as int));
            assert(1 <= paths[i].len() <= segments(members[at[e].0 as int]).len());
        }
        assert forall|q: Seq<Seq<char>>| is_group_path(members@, q) implies #[trigger] path_listed(paths, q) by {
            let x = choose|x: int|
                0 <= x < members.len() && 1 <= q.len() <= segments(#[trigger] members[x]).len() && segments(members[x]).take(
                    q.len() as int,
                ) == q;
            assert(path_listed(paths, segments(members[x]).take(q.len() as int)));
        }
        assert(hierarchy_layout(members@, groups@, paths));
    }
    groups
}

} // verus!
