//! The argument tree: values under dotted keys, nested by segment.

use crate::outside::{
    distinct_keys, group_leaves, json_leaves, json_object, json_plain, json_text, member_parts,
    part_holds, plain_members, text_leaves,
};
use vstd::prelude::*;

verus! {

/// The segments that lead to a value.
pub type Path = Seq<Seq<char>>;

/// The values of a tree, each under its path.
pub type Leaves = Map<Seq<Seq<char>>, Seq<char>>;

/// A node of the argument tree: a value, or a group of nodes under keys.
#[derive(Debug)]
pub enum ArgNode {
    Text(String),
    Group(Vec<(String, ArgNode)>),
}

/// The children by key and values.
pub open spec fn kid_parts(kids: Seq<(String, ArgNode)>) -> Seq<(Seq<char>, Leaves)>
    decreases kids, 0nat,
{
    Seq::new(
        kids.len(),
        |i: int|
            if 0 <= i < kids.len() {
                (kids[i].0@, node_leaves(kids[i].1))
            } else {
                (Seq::empty(), Map::empty())
            },
    )
}

/// The values at and below a node: its own text under the empty path, or
/// the values of its children, each under the child's key followed by its
/// path below the child.
pub open spec fn node_leaves(node: ArgNode) -> Leaves
    decreases node, 1nat,
{
    match node {
        ArgNode::Text(s) => text_leaves(s@),
        ArgNode::Group(kids) => group_leaves(kid_parts(kids@)),
    }
}

/// The values below a group of children.
pub open spec fn kids_leaves(kids: Seq<(String, ArgNode)>) -> Leaves {
    group_leaves(kid_parts(kids))
}

/// No two children share a key.
pub open spec fn distinct_kids(kids: Seq<(String, ArgNode)>) -> bool {
    forall|i: int, j: int| 0 <= i < kids.len() && 0 <= j < kids.len() && i != j ==> kids[i].0@ != kids[j].0@
}

/// A group has at least one child, its children have distinct keys, and
/// they are well formed themselves.
pub open spec fn node_wf(node: ArgNode) -> bool
    decreases node,
{
    match node {
        ArgNode::Text(_) => true,
        ArgNode::Group(kids) => {
            &&& kids@.len() > 0
            &&& distinct_kids(kids@)
            &&& forall|i: int| 0 <= i < kids@.len() ==> node_wf(#[trigger] kids@[i].1)
        },
    }
}

/// The children have distinct keys and are well formed.
pub open spec fn kids_wf(kids: Seq<(String, ArgNode)>) -> bool {
    &&& distinct_kids(kids)
    &&& forall|i: int| 0 <= i < kids.len() ==> node_wf(#[trigger] kids[i].1)
}

/// A group holds what its children hold.
pub proof fn lemma_group_leaves(kids: Vec<(String, ArgNode)>)
    ensures
        node_leaves(ArgNode::Group(kids)) == kids_leaves(kids@),
{
}

/// What the child keyed by the first segment of `p` says of `p`.
pub proof fn lemma_kids_lookup(kids: Seq<(String, ArgNode)>, i: int, p: Path)
    requires
        distinct_kids(kids),
        0 <= i < kids.len(),
        p.len() > 0,
        kids[i].0@ == p[0],
    ensures
        kids_leaves(kids).contains_key(p) == node_leaves(kids[i].1).contains_key(p.skip(1)),
        kids_leaves(kids).contains_key(p) ==> kids_leaves(kids)[p] == node_leaves(kids[i].1)[p.skip(1)],
{
    let parts = kid_parts(kids);
    if node_leaves(kids[i].1).contains_key(p.skip(1)) {
        assert(part_holds(parts, i, p));
    }
    if kids_leaves(kids).contains_key(p) {
        let j = choose|j: int| part_holds(parts, j, p);
        assert(j == i);
    }
}

/// A path that starts with no child's key leads to nothing.
pub proof fn lemma_kids_miss(kids: Seq<(String, ArgNode)>, p: Path)
    requires
        p.len() == 0 || forall|i: int| 0 <= i < kids.len() ==> (#[trigger] kids[i]).0@ != p[0],
    ensures
        !kids_leaves(kids).contains_key(p),
{
    let parts = kid_parts(kids);
    if kids_leaves(kids).contains_key(p) {
        let j = choose|j: int| part_holds(parts, j, p);
        assert(kids[j].0@ == p[0]);
    }
}

/// A well-formed node holds at least one value.
pub proof fn lemma_node_has_leaf(node: ArgNode) -> (p: Path)
    requires
        node_wf(node),
    ensures
        node_leaves(node).contains_key(p),
    decreases node,
{
    match node {
        ArgNode::Text(s) => Seq::empty(),
        ArgNode::Group(kids) => {
            let q = lemma_node_has_leaf(kids@[0].1);
            let p = seq![kids@[0].0@] + q;
            assert(p.skip(1) =~= q);
            lemma_group_leaves(kids);
            lemma_kids_lookup(kids@, 0, p);
            p
        },
    }
}

/// The JSON value that holds what `node` holds.
fn node_json(node: &ArgNode) -> (out: serde_json::Value)
    requires
        node_wf(*node),
    ensures
        json_plain(out),
        json_leaves(out) == node_leaves(*node),
    decreases node, 1nat,
{
    match node {
        ArgNode::Text(s) => json_text(s.as_str()),
        ArgNode::Group(kids) => {
            proof {
                lemma_group_leaves(*kids);
            }
            kids_json(kids)
        },
    }
}

/// The JSON object that holds what the children hold.
fn kids_json(kids: &Vec<(String, ArgNode)>) -> (out: serde_json::Value)
    requires
        kids_wf(kids@),
    ensures
        json_plain(out),
        json_leaves(out) == kids_leaves(kids@),
    decreases kids, 0nat,
{
    let mut members: Vec<(String, serde_json::Value)> = Vec::new();
    let mut i: usize = 0;
    while i < kids.len()
        invariant
            kids_wf(kids@),
            i <= kids.len(),
            members.len() == i,
            forall|j: int|
                0 <= j < i ==> {
                    &&& (#[trigger] members[j]).0@ == kids[j].0@
                    &&& json_plain(members[j].1)
                    &&& json_leaves(members[j].1) == node_leaves(kids[j].1)
                },
        decreases kids.len() - i,
    {
        let value = node_json(&kids[i].1);
        members.push((kids[i].0.clone(), value));
        i = i + 1;
    }
    proof {
        assert(distinct_keys(members@)) by {
            assert forall|a: int, b: int|
                0 <= a < members@.len() && 0 <= b < members@.len() && a != b implies members@[a].0@
                != members@[b].0@ by {
                assert(members[a].0@ == kids[a].0@);
                assert(members[b].0@ == kids[b].0@);
            }
        }
        assert(plain_members(members@)) by {
            assert forall|j: int| 0 <= j < members@.len() implies json_plain(#[trigger] members@[j].1)
                && exists|p: Path| json_leaves(members@[j].1).contains_key(p) by {
                assert(members[j].0@ == kids[j].0@);
                let p = lemma_node_has_leaf(kids[j].1);
                assert(json_leaves(members@[j].1).contains_key(p));
            }
        }
        assert(member_parts(members@) =~= kid_parts(kids@)) by {
            assert forall|j: int| 0 <= j < members@.len() implies member_parts(members@)[j] == kid_parts(
                kids@,
            )[j] by {
                assert(members[j].0@ == kids[j].0@);
            }
        }
    }
    json_object(members)
}

/// One of the two paths continues the other, or they are the same.
pub open spec fn related(p: Path, q: Path) -> bool {
    p.is_prefix_of(q) || q.is_prefix_of(p)
}

/// A value already stands at `p`, above it or below it.
pub open spec fn blocked(m: Leaves, p: Path) -> bool {
    exists|q: Path| m.contains_key(q) && related(p, q)
}

/// Writing `v` at `p`: the first value written at a place stays, so the
/// write is dropped where a value stands at `p`, above it or below it.
pub open spec fn assign(m: Leaves, p: Path, v: Seq<char>) -> Leaves {
    if blocked(m, p) {
        m
    } else {
        m.insert(p, v)
    }
}

/// The values that a list of assignments leaves, taken in order; each key
/// is split at its dots.
pub open spec fn assigned(args: Seq<(Seq<char>, Seq<char>)>) -> Leaves
    decreases args.len(),
{
    if args.len() == 0 {
        Map::empty()
    } else {
        assign(assigned(args.drop_last()), crate::text::segments(args.last().0), args.last().1)
    }
}

/// A second write to the same path changes nothing.
pub proof fn lemma_first_write_wins(m: Leaves, p: Path, first: Seq<char>, second: Seq<char>)
    ensures
        assign(assign(m, p, first), p, second) == assign(m, p, first),
{
    if !blocked(m, p) {
        assert(m.insert(p, first).contains_key(p) && related(p, p));
    }
}

/// A write to a path that no earlier value stands at, above or below, is
/// kept, and leaves all earlier values alone.
pub proof fn lemma_assign_adds(m: Leaves, p: Path, v: Seq<char>)
    requires
        !blocked(m, p),
    ensures
        assign(m, p, v).contains_key(p),
        assign(m, p, v)[p] == v,
        forall|q: Path| m.contains_key(q) ==> assign(m, p, v).contains_key(q) && assign(m, p, v)[q] == m[q],
{
    assert forall|q: Path| m.contains_key(q) implies q != p by {
        if q == p {
            assert(related(p, q));
        }
    }
}

/// No value stands above, below or at the place of another.
pub open spec fn prefix_free(m: Leaves) -> bool {
    forall|p: Path, q: Path| m.contains_key(p) && m.contains_key(q) && related(p, q) ==> p == q
}

/// Assignments leave a tree: no value stands above or below another.
pub proof fn lemma_assigned_prefix_free(args: Seq<(Seq<char>, Seq<char>)>)
    ensures
        prefix_free(assigned(args)),
    decreases args.len(),
{
    if args.len() > 0 {
        lemma_assigned_prefix_free(args.drop_last());
        let m = assigned(args.drop_last());
        let p = crate::text::segments(args.last().0);
        if !blocked(m, p) {
            assert forall|a: Path, b: Path|
                assigned(args).contains_key(a) && assigned(args).contains_key(b) && related(
                    a,
                    b,
                ) implies a == b by {
                if a == p && b != p {
                    assert(m.contains_key(b) && related(p, b));
                }
                if b == p && a != p {
                    assert(m.contains_key(a) && related(p, a));
                }
            }
        }
    }
}

/// Paths with the same first segment and the same rest are the same.
proof fn lemma_same_path(r: Path, p: Path)
    requires
        r.len() > 0,
        p.len() > 0,
        r[0] == p[0],
        r.skip(1) == p.skip(1),
    ensures
        r == p,
{
    assert(r.skip(1).len() == r.len() - 1);
    assert(p.skip(1).len() == p.len() - 1);
    assert(r.len() == p.len());
    assert forall|i: int| 0 <= i < r.len() implies r[i] == p[i] by {
        if i > 0 {
            assert(r.skip(1)[i - 1] == r[i]);
            assert(p.skip(1)[i - 1] == p[i]);
        }
    }
    assert(r =~= p);
}

/// Paths with the same first segment are related as their rests are.
proof fn lemma_related_below(p: Path, q: Path)
    requires
        p.len() > 0,
        q.len() > 0,
        p[0] == q[0],
    ensures
        related(p, q) == related(p.skip(1), q.skip(1)),
{
    lemma_prefix_below(p, q);
    lemma_prefix_below(q, p);
}

proof fn lemma_prefix_below(p: Path, q: Path)
    requires
        p.len() > 0,
        q.len() > 0,
        p[0] == q[0],
    ensures
        p.is_prefix_of(q) == p.skip(1).is_prefix_of(q.skip(1)),
{
    let ptail = p.skip(1);
    let qtail = q.skip(1);
    if p.is_prefix_of(q) {
        assert forall|i: int| 0 <= i < ptail.len() implies ptail[i] == qtail[i] by {
            assert(p[i + 1] == q.subrange(0, p.len() as int)[i + 1]);
        }
        assert(ptail =~= qtail.subrange(0, ptail.len() as int));
    }
    if ptail.is_prefix_of(qtail) {
        assert forall|i: int| 0 <= i < p.len() implies p[i] == q[i] by {
            if i > 0 {
                assert(ptail[i - 1] == qtail.subrange(0, ptail.len() as int)[i - 1]);
            }
        }
        assert(p =~= q.subrange(0, p.len() as int));
    }
}

/// Children that differ in one place alone hold the same values under
/// every other key.
proof fn lemma_same_elsewhere(a: Seq<(String, ArgNode)>, b: Seq<(String, ArgNode)>, i: int, r: Path)
    requires
        distinct_kids(a),
        distinct_kids(b),
        a.len() == b.len(),
        0 <= i < a.len(),
        forall|j: int| 0 <= j < a.len() ==> (#[trigger] a[j]).0@ == b[j].0@,
        forall|j: int| 0 <= j < a.len() && j != i ==> (#[trigger] a[j]).1 == b[j].1,
        r.len() == 0 || r[0] != a[i].0@,
    ensures
        kids_leaves(a).contains_key(r) == kids_leaves(b).contains_key(r),
        kids_leaves(a).contains_key(r) ==> kids_leaves(a)[r] == kids_leaves(b)[r],
{
    if r.len() > 0 && exists|j: int| 0 <= j < a.len() && (#[trigger] a[j]).0@ == r[0] {
        let j = choose|j: int| 0 <= j < a.len() && (#[trigger] a[j]).0@ == r[0];
        lemma_kids_lookup(a, j, r);
        lemma_kids_lookup(b, j, r);
    } else {
        lemma_kids_miss(a, r);
        if r.len() > 0 {
            assert forall|j: int| 0 <= j < b.len() implies (#[trigger] b[j]).0@ != r[0] by {
                assert(a[j].0@ == b[j].0@);
            }
        }
        lemma_kids_miss(b, r);
    }
}

/// One more child under a new key adds its values and leaves the others
/// alone.
proof fn lemma_pushed(kids: Seq<(String, ArgNode)>, kid: (String, ArgNode), r: Path)
    requires
        distinct_kids(kids),
        forall|j: int| 0 <= j < kids.len() ==> (#[trigger] kids[j]).0@ != kid.0@,
    ensures
        distinct_kids(kids.push(kid)),
        r.len() > 0 && r[0] == kid.0@ ==> {
            &&& kids_leaves(kids.push(kid)).contains_key(r) == node_leaves(kid.1).contains_key(r.skip(1))
            &&& !kids_leaves(kids).contains_key(r)
            &&& kids_leaves(kids.push(kid)).contains_key(r) ==> kids_leaves(kids.push(kid))[r] == node_leaves(
                kid.1,
            )[r.skip(1)]
        },
        r.len() == 0 || r[0] != kid.0@ ==> {
            &&& kids_leaves(kids.push(kid)).contains_key(r) == kids_leaves(kids).contains_key(r)
            &&& kids_leaves(kids).contains_key(r) ==> kids_leaves(kids.push(kid))[r] == kids_leaves(kids)[r]
        },
{
    let more = kids.push(kid);
    assert(distinct_kids(more)) by {
        assert forall|x: int, y: int| 0 <= x < more.len() && 0 <= y < more.len() && x != y implies more[x].0@
            != more[y].0@ by {
            if x < kids.len() {
                assert(more[x] == kids[x]);
            }
            if y < kids.len() {
                assert(more[y] == kids[y]);
            }
        }
    }
    if r.len() > 0 && r[0] == kid.0@ {
        lemma_kids_lookup(more, kids.len() as int, r);
        lemma_kids_miss(kids, r);
    } else if r.len() > 0 && exists|j: int| 0 <= j < kids.len() && (#[trigger] kids[j]).0@ == r[0] {
        let j = choose|j: int| 0 <= j < kids.len() && (#[trigger] kids[j]).0@ == r[0];
        assert(more[j] == kids[j]);
        lemma_kids_lookup(more, j, r);
        lemma_kids_lookup(kids, j, r);
    } else {
        lemma_kids_miss(kids, r);
        if r.len() > 0 {
            assert forall|j: int| 0 <= j < more.len() implies (#[trigger] more[j]).0@ != r[0] by {
                if j < kids.len() {
                    assert(more[j] == kids[j]);
                }
            }
        }
        lemma_kids_miss(more, r);
    }
}

/// Every path that leads to a value below children has a first segment.
proof fn lemma_kids_paths(kids: Seq<(String, ArgNode)>, q: Path)
    requires
        kids_leaves(kids).contains_key(q),
    ensures
        q.len() > 0,
        exists|j: int| 0 <= j < kids.len() && (#[trigger] kids[j]).0@ == q[0],
{
    let j = choose|j: int| part_holds(kid_parts(kids), j, q);
    assert(kids[j].0@ == q[0]);
}

/// The position of the child keyed `key`, if there is one.
fn kid_position(kids: &Vec<(String, ArgNode)>, key: &String) -> (r: Option<usize>)
    ensures
        match r {
            Some(i) => i < kids.len() && kids[i as int].0@ == key@,
            None => forall|j: int| 0 <= j < kids.len() ==> (#[trigger] kids[j]).0@ != key@,
        },
{
    let mut i: usize = 0;
    while i < kids.len()
        invariant
            i <= kids.len(),
            forall|j: int| 0 <= j < i ==> (#[trigger] kids[j]).0@ != key@,
        decreases kids.len() - i,
    {
        if kids[i].0 == *key {
            return Some(i);
        }
        i = i + 1;
    }
    None
}

/// The node that holds `value` under the segments of `path` from `at` on,
/// and nothing else.
fn fresh(path: &Vec<String>, at: usize, value: &str) -> (out: ArgNode)
    requires
        at <= path.len(),
    ensures
        node_wf(out),
        node_leaves(out) == text_leaves(value@).remove(Seq::empty()).insert(
            path.deep_view().skip(at as int),
            value@,
        ),
    decreases path.len() - at,
{
    let ghost p = path.deep_view().skip(at as int);
    if at == path.len() {
        let out = ArgNode::Text(value.to_owned());
        assert(p =~= Seq::<Seq<char>>::empty());
        assert(node_leaves(out) =~= text_leaves(value@).remove(Seq::empty()).insert(p, value@));
        out
    } else {
        let child = fresh(path, at + 1, value);
        let mut kids: Vec<(String, ArgNode)> = Vec::new();
        kids.push((path[at].clone(), child));
        let out = ArgNode::Group(kids);
        proof {
            let ptail = path.deep_view().skip(at + 1);
            assert(p.skip(1) =~= ptail);
            assert(p[0] == path[at as int]@);
            assert(distinct_kids(kids@));
            lemma_group_leaves(kids);
            let want = text_leaves(value@).remove(Seq::empty()).insert(p, value@);
            assert forall|r: Path| #[trigger] kids_leaves(kids@).contains_key(r) == want.contains_key(r) by {
                if r.len() > 0 && r[0] == p[0] {
                    lemma_kids_lookup(kids@, 0, r);
                    if r.skip(1) == ptail {
                        lemma_same_path(r, p);
                    }
                } else {
                    lemma_kids_miss(kids@, r);
                }
            }
            assert forall|r: Path| kids_leaves(kids@).contains_key(r) implies #[trigger] kids_leaves(kids@)[r]
                == want[r] by {
                lemma_kids_lookup(kids@, 0, r);
            }
            assert(kids_leaves(kids@) =~= want);
        }
        out
    }
}

/// Writes `value` under the segments of `path` from `at` on, unless a value
/// stands there, above or below.
fn put(kids: Vec<(String, ArgNode)>, path: &Vec<String>, at: usize, value: &str) -> (out: Vec<
    (String, ArgNode),
>)
    requires
        at < path.len(),
        kids_wf(kids@),
    ensures
        kids_wf(out@),
        out@.len() >= kids@.len(),
        kids_leaves(out@) == assign(kids_leaves(kids@), path.deep_view().skip(at as int), value@),
    decreases path.len() - at,
{
    let ghost p = path.deep_view().skip(at as int);
    let ghost ptail = path.deep_view().skip(at + 1);
    let ghost before = kids@;
    let ghost m = kids_leaves(before);
    proof {
        assert(p.skip(1) =~= ptail);
        assert(p[0] == path[at as int]@);
    }
    let mut kids = kids;
    match kid_position(&kids, &path[at]) {
        None => {
            let node = fresh(path, at + 1, value);
            let ghost kid = (path[at as int], node);
            kids.push((path[at].clone(), node));
            proof {
                let pushed = (kids@[before.len() as int].0, node);
                assert(kids@ =~= before.push(pushed));
                assert(!blocked(m, p)) by {
                    if blocked(m, p) {
                        let q = choose|q: Path| m.contains_key(q) && related(p, q);
                        lemma_kids_paths(before, q);
                        assert(q[0] == p[0]);
                    }
                }
                lemma_pushed(before, pushed, p);
                assert forall|r: Path| #[trigger] kids_leaves(kids@).contains_key(r) == m.insert(
                    p,
                    value@,
                ).contains_key(r) by {
                    lemma_pushed(before, pushed, r);
                    if r.len() > 0 && r[0] == p[0] && r.skip(1) == ptail {
                        lemma_same_path(r, p);
                    }
                }
                assert forall|r: Path| kids_leaves(kids@).contains_key(r) implies #[trigger] kids_leaves(
                    kids@,
                )[r] == m.insert(p, value@)[r] by {
                    lemma_pushed(before, pushed, r);
                    if r.len() > 0 && r[0] == p[0] && r.skip(1) == ptail {
                        lemma_same_path(r, p);
                    }
                }
                assert(kids_leaves(kids@) =~= m.insert(p, value@));
                assert forall|j: int| 0 <= j < kids@.len() implies node_wf(#[trigger] kids@[j].1) by {
                    if j < before.len() {
                        assert(kids@[j] == before[j]);
                    }
                }
            }
            kids
        },
        Some(i) => {
            if at + 1 == path.len() {
                proof {
                    let qtail = lemma_node_has_leaf(before[i as int].1);
                    let q = seq![p[0]] + qtail;
                    assert(q.skip(1) =~= qtail);
                    lemma_kids_lookup(before, i as int, q);
                    assert(p =~= seq![p[0]]);
                    assert(p.is_prefix_of(q));
                    assert(m.contains_key(q) && related(p, q));
                }
                kids
            } else {
                let (key, node) = kids.remove(i);
                match node {
                    ArgNode::Text(text) => {
                        proof {
                            let q = seq![p[0]];
                            assert(q.skip(1) =~= Seq::<Seq<char>>::empty());
                            lemma_kids_lookup(before, i as int, q);
                            assert(q.is_prefix_of(p));
                            assert(m.contains_key(q) && related(p, q));
                        }
                        kids.insert(i, (key, ArgNode::Text(text)));
                        assert(kids@ =~= before);
                        kids
                    },
                    ArgNode::Group(sub) => {
                        let ghost s0 = kids_leaves(sub@);
                        proof {
                            lemma_group_leaves(sub);
                            assert(node_wf(before[i as int].1));
                        }
                        let sub2 = put(sub, path, at + 1, value);
                        let ghost s1 = kids_leaves(sub2@);
                        let ghost node2 = ArgNode::Group(sub2);
                        proof {
                            lemma_group_leaves(sub2);
                        }
                        kids.insert(i, (key, ArgNode::Group(sub2)));
                        proof {
                            let after = kids@;
                            assert(after =~= before.update(i as int, (key, node2)));
                            assert(distinct_kids(after)) by {
                                assert forall|x: int, y: int|
                                    0 <= x < after.len() && 0 <= y < after.len() && x != y implies after[x].0@
                                    != after[y].0@ by {
                                    assert(after[x].0@ == before[x].0@);
                                    assert(after[y].0@ == before[y].0@);
                                }
                            }
                            assert forall|j: int| 0 <= j < after.len() implies node_wf(#[trigger] after[j].1) by {
                                if j != i {
                                    assert(after[j] == before[j]);
                                }
                            }
                            assert(blocked(m, p) == blocked(s0, ptail)) by {
                                if blocked(m, p) {
                                    let q = choose|q: Path| m.contains_key(q) && related(p, q);
                                    lemma_kids_paths(before, q);
                                    assert(q[0] == p[0]);
                                    lemma_kids_lookup(before, i as int, q);
                                    lemma_related_below(p, q);
                                    assert(s0.contains_key(q.skip(1)) && related(ptail, q.skip(1)));
                                }
                                if blocked(s0, ptail) {
                                    let qtail = choose|qtail: Path| s0.contains_key(qtail) && related(ptail, qtail);
                                    let q = seq![p[0]] + qtail;
                                    assert(q.skip(1) =~= qtail);
                                    lemma_kids_lookup(before, i as int, q);
                                    lemma_related_below(p, q);
                                    assert(m.contains_key(q) && related(p, q));
                                }
                            }
                            let want = assign(m, p, value@);
                            assert forall|r: Path| #[trigger]
                                kids_leaves(after).contains_key(r) == want.contains_key(r) by {
                                if r.len() > 0 && r[0] == p[0] {
                                    lemma_kids_lookup(before, i as int, r);
                                    lemma_kids_lookup(after, i as int, r);
                                    if r.skip(1) == ptail {
                                        lemma_same_path(r, p);
                                    }
                                } else {
                                    lemma_same_elsewhere(before, after, i as int, r);
                                }
                            }
                            assert forall|r: Path| kids_leaves(after).contains_key(r) implies #[trigger] kids_leaves(
                                after,
                            )[r] == want[r] by {
                                if r.len() > 0 && r[0] == p[0] {
                                    lemma_kids_lookup(before, i as int, r);
                                    lemma_kids_lookup(after, i as int, r);
                                    if r.skip(1) == ptail {
                                        lemma_same_path(r, p);
                                    }
                                } else {
                                    lemma_same_elsewhere(before, after, i as int, r);
                                }
                            }
                            assert(kids_leaves(after) =~= want);
                        }
                        kids
                    },
                }
            }
        },
    }
}

/// The value under the segments of `path` from `at` on, if there is one.
fn lookup(kids: &Vec<(String, ArgNode)>, path: &Vec<String>, at: usize) -> (out: Option<String>)
    requires
        at < path.len(),
        kids_wf(kids@),
    ensures
        match out {
            Some(v) => kids_leaves(kids@).contains_key(path.deep_view().skip(at as int)) && kids_leaves(
                kids@,
            )[path.deep_view().skip(at as int)] == v@,
            None => !kids_leaves(kids@).contains_key(path.deep_view().skip(at as int)),
        },
    decreases path.len() - at,
{
    let ghost p = path.deep_view().skip(at as int);
    let ghost ptail = path.deep_view().skip(at + 1);
    proof {
        assert(p.skip(1) =~= ptail);
        assert(p[0] == path[at as int]@);
    }
    match kid_position(kids, &path[at]) {
        None => {
            proof {
                lemma_kids_miss(kids@, p);
            }
            None
        },
        Some(i) => {
            proof {
                lemma_kids_lookup(kids@, i as int, p);
            }
            match &kids[i].1 {
                ArgNode::Text(text) => {
                    if at + 1 == path.len() {
                        assert(ptail =~= Seq::<Seq<char>>::empty());
                        Some(text.clone())
                    } else {
                        None
                    }
                },
                ArgNode::Group(sub) => {
                    proof {
                        lemma_group_leaves(*sub);
                        assert(node_wf(kids@[i as int].1));
                    }
                    if at + 1 == path.len() {
                        proof {
                            lemma_kids_miss(sub@, ptail);
                        }
                        None
                    } else {
                        lookup(sub, path, at + 1)
                    }
                },
            }
        },
    }
}

/// The argument tree.  Its view gives every value under its path.
#[derive(Debug)]
pub struct ArgTree {
    root: Vec<(String, ArgNode)>,
}

impl View for ArgTree {
    type V = Leaves;

    closed spec fn view(&self) -> Leaves {
        kids_leaves(self.root@)
    }
}

impl ArgTree {
    #[verifier::type_invariant]
    spec fn well_formed(self) -> bool {
        kids_wf(self.root@)
    }

    /// The tree without values.
    pub fn new() -> (out: ArgTree)
        ensures
            out@ == Map::<Seq<Seq<char>>, Seq<char>>::empty(),
    {
        let out = ArgTree { root: Vec::new() };
        proof {
            assert forall|r: Path| !kids_leaves(out.root@).contains_key(r) by {
                lemma_kids_miss(out.root@, r);
            }
            assert(out@ =~= Map::<Seq<Seq<char>>, Seq<char>>::empty());
        }
        out
    }

    /// Assigns `value` to the dotted `key`.  The first value written at a
    /// place stays: the assignment is dropped where a value stands at the
    /// key's path, above it or below it.
    pub fn assign(&mut self, key: &str, value: &str)
        ensures
            final(self)@ == assign(old(self)@, crate::text::segments(key@), value@),
    {
        proof {
            use_type_invariant(&*self);
            crate::text::lemma_segments(key@);
        }
        let path = crate::text::split_dots(key);
        let mut root: Vec<(String, ArgNode)> = Vec::new();
        std::mem::swap(&mut root, &mut self.root);
        assert(path.deep_view().skip(0) =~= path.deep_view());
        self.root = put(root, &path, 0, value);
    }

    /// The value at the dotted `key`, if one stands exactly there.
    pub fn get(&self, key: &str) -> (out: Option<String>)
        ensures
            match out {
                Some(v) => self@.contains_key(crate::text::segments(key@)) && self@[crate::text::segments(
                    key@,
                )] == v@,
                None => !self@.contains_key(crate::text::segments(key@)),
            },
    {
        proof {
            use_type_invariant(self);
            crate::text::lemma_segments(key@);
        }
        let path = crate::text::split_dots(key);
        assert(path.deep_view().skip(0) =~= path.deep_view());
        lookup(&self.root, &path, 0)
    }

    /// The tree as the JSON object that templates are rendered against.
    pub fn to_json(&self) -> (out: serde_json::Value)
        ensures
            json_plain(out),
            json_leaves(out) == self@,
    {
        proof {
            use_type_invariant(self);
        }
        kids_json(&self.root)
    }
}

} // verus!
