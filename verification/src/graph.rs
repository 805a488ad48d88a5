//! The prerequisite graph of a catalog: reachability, cycles, and the layers
//! in which chains become ready.

use vstd::prelude::*;

verus! {

/// The name of a chain.
pub type Name = Seq<char>;

/// The prerequisites of each chain of a catalog, by name.
pub type Graph = Map<Seq<char>, Seq<Seq<char>>>;

/// Chain `a` is in the catalog and names `b` among its prerequisites.
pub open spec fn edge(g: Graph, a: Name, b: Name) -> bool {
    g.contains_key(a) && g[a].contains(b)
}

/// Position `i + 1` of `p` is a prerequisite of position `i`.
pub open spec fn step(g: Graph, p: Seq<Name>, i: int) -> bool {
    edge(g, p[i], p[i + 1])
}

/// Each name of `p` but the first is a prerequisite of the one before it.
pub open spec fn is_path(g: Graph, p: Seq<Name>) -> bool {
    p.len() > 0 && forall|i: int| 0 <= i < p.len() - 1 ==> #[trigger] step(g, p, i)
}

/// `p` leads from a requested name to `n`.
pub open spec fn leads_to(g: Graph, roots: Set<Name>, p: Seq<Name>, n: Name) -> bool {
    is_path(g, p) && roots.contains(p[0]) && p.last() == n
}

/// `n` is requested, or a prerequisite of a chain that is reachable.
pub open spec fn reachable(g: Graph, roots: Set<Name>, n: Name) -> bool {
    exists|p: Seq<Name>| leads_to(g, roots, p, n)
}

/// All names that the requested ones depend on, themselves included.
pub open spec fn closure(g: Graph, roots: Set<Name>) -> Set<Name> {
    Set::new(|n: Name| reachable(g, roots, n))
}

/// Every reachable name is a chain of the catalog.
pub open spec fn complete(g: Graph, roots: Set<Name>) -> bool {
    forall|n: Name| reachable(g, roots, n) ==> g.contains_key(n)
}

/// `p` leads from a reachable chain back to itself.
pub open spec fn is_cycle(g: Graph, roots: Set<Name>, p: Seq<Name>) -> bool {
    is_path(g, p) && p.len() >= 2 && p[0] == p.last() && reachable(g, roots, p[0])
}

/// Some reachable chain depends on itself.
pub open spec fn has_cycle(g: Graph, roots: Set<Name>) -> bool {
    exists|p: Seq<Name>| is_cycle(g, roots, p)
}

/// Every prerequisite of `n` is in `done`.
pub open spec fn pre_done(g: Graph, n: Name, done: Set<Name>) -> bool {
    forall|i: int| 0 <= i < g[n].len() ==> done.contains(#[trigger] g[n][i])
}

/// The chains of `c` that are not in `done` although all their
/// prerequisites are.
pub open spec fn ready(g: Graph, c: Set<Name>, done: Set<Name>) -> Set<Name> {
    Set::new(|n: Name| c.contains(n) && !done.contains(n) && pre_done(g, n, done))
}

/// The chains of `c` that the first `k` layers hold.
pub open spec fn resolved(g: Graph, c: Set<Name>, k: nat) -> Set<Name>
    decreases k,
{
    if k == 0 {
        Set::empty()
    } else {
        resolved(g, c, (k - 1) as nat).union(ready(g, c, resolved(g, c, (k - 1) as nat)))
    }
}

/// Layer `k`: the chains of `c` whose prerequisites all lie in earlier
/// layers, and that lie in none of them.
pub open spec fn layer(g: Graph, c: Set<Name>, k: nat) -> Set<Name> {
    ready(g, c, resolved(g, c, k))
}

/// Layer `k` holds a chain.
pub open spec fn layer_occupied(g: Graph, c: Set<Name>, k: nat) -> bool {
    exists|n: Name| layer(g, c, k).contains(n)
}

/// `k` layers hold all of `c`, and none of them is empty.
pub open spec fn layered_in(g: Graph, c: Set<Name>, k: nat) -> bool {
    &&& resolved(g, c, k) == c
    &&& forall|j: nat| j < k ==> #[trigger] layer_occupied(g, c, j)
}

/// Layer `k` is empty although the layers before it do not hold all of `c`.
pub open spec fn stalls_at(g: Graph, c: Set<Name>, k: nat) -> bool {
    &&& forall|n: Name| !layer(g, c, k).contains(n)
    &&& exists|m: Name| c.contains(m) && !resolved(g, c, k).contains(m)
}

/// The number of layers that hold all of `c`, where there is one.
pub open spec fn layer_count(g: Graph, c: Set<Name>) -> nat {
    choose|k: nat| layered_in(g, c, k)
}

/// The names of `names` that `members` holds, in their order.
pub open spec fn keep(names: Seq<Name>, members: Set<Name>) -> Seq<Name> {
    names.filter(|n: Name| members.contains(n))
}

/// The chains of layer `k` in the order of `names`.
pub open spec fn stage(names: Seq<Name>, g: Graph, c: Set<Name>, k: nat) -> Seq<Name> {
    keep(names, layer(g, c, k))
}

/// The first `count` layers as stages.
pub open spec fn stages(names: Seq<Name>, g: Graph, c: Set<Name>, count: nat) -> Seq<Seq<Name>> {
    Seq::new(count, |k: int| stage(names, g, c, k as nat))
}

/// The stages in which the chains that `roots` depend on are run.
pub open spec fn expected_stages(names: Seq<Name>, g: Graph, roots: Set<Name>) -> Seq<Seq<Name>> {
    stages(names, g, closure(g, roots), layer_count(g, closure(g, roots)))
}

/// Stage `k` of `st` holds `n` at position `i`.
pub open spec fn occurs(st: Seq<Seq<Name>>, k: int, i: int, n: Name) -> bool {
    0 <= k < st.len() && 0 <= i < st[k].len() && st[k][i] == n
}

/// A stage of `st` before stage `k` holds `n`.
pub open spec fn staged_before(st: Seq<Seq<Name>>, k: int, n: Name) -> bool {
    exists|e: int, f: int| e < k && occurs(st, e, f, n)
}

/// Every prerequisite of a staged chain stands in a strictly earlier stage.
pub open spec fn prerequisites_first(g: Graph, st: Seq<Seq<Name>>) -> bool {
    forall|k: int, i: int, j: int|
        0 <= k < st.len() && 0 <= i < st[k].len() && 0 <= j < g[st[k][i]].len() ==> #[trigger] staged_before(
            st,
            k,
            g[st[k][i]][j],
        )
}

/// The stages hold the names of `c`, and each of them exactly once.
pub open spec fn each_once(c: Set<Name>, st: Seq<Seq<Name>>) -> bool {
    &&& forall|n: Name| c.contains(n) ==> exists|k: int, i: int| occurs(st, k, i, n)
    &&& forall|k: int, i: int, n: Name| occurs(st, k, i, n) ==> c.contains(n)
    &&& forall|k: int, i: int, k2: int, i2: int, n: Name|
        occurs(st, k, i, n) && occurs(st, k2, i2, n) ==> k == k2 && i == i2
}

/// What `keep` holds of names that do not repeat: the names that
/// `members` holds, each once.
pub proof fn lemma_keep(names: Seq<Name>, members: Set<Name>)
    requires
        names.no_duplicates(),
    ensures
        keep(names, members).no_duplicates(),
        forall|x: Name| keep(names, members).contains(x) <==> names.contains(x) && members.contains(x),
    decreases names.len(),
{
    reveal(Seq::filter);
    if names.len() > 0 {
        let rest = names.drop_last();
        let last = names.last();
        lemma_keep(rest, members);
        let kept = keep(rest, members);
        assert(!rest.contains(last)) by {
            if rest.contains(last) {
                let i = choose|i: int| 0 <= i < rest.len() && rest[i] == last;
                assert(names[i] == names[names.len() - 1]);
            }
        }
        assert forall|x: Name| keep(names, members).contains(x) <==> names.contains(x) && members.contains(x) by {
            if names.contains(x) {
                let i = choose|i: int| 0 <= i < names.len() && names[i] == x;
                if i < rest.len() {
                    assert(rest[i] == x);
                }
            }
            if rest.contains(x) {
                let i = choose|i: int| 0 <= i < rest.len() && rest[i] == x;
                assert(names[i] == x);
            }
            if members.contains(last) {
                assert(keep(names, members) == kept.push(last));
                assert(kept.push(last)[kept.len() as int] == last);
                if kept.contains(x) {
                    let i = choose|i: int| 0 <= i < kept.len() && kept[i] == x;
                    assert(kept.push(last)[i] == x);
                }
                if kept.push(last).contains(x) {
                    let i = choose|i: int| 0 <= i < kept.push(last).len() && kept.push(last)[i] == x;
                    if i < kept.len() {
                        assert(kept[i] == x);
                    }
                }
            }
        }
    }
}

/// In the stages of layers that hold all of `c`, every chain comes after
/// all its prerequisites, and every chain of `c` stands in exactly one
/// place.
pub proof fn lemma_stages_sound(names: Seq<Name>, g: Graph, c: Set<Name>, count: nat)
    requires
        names.no_duplicates(),
        forall|n: Name| c.contains(n) ==> names.contains(n),
        resolved(g, c, count) == c,
    ensures
        prerequisites_first(g, stages(names, g, c, count)),
        each_once(c, stages(names, g, c, count)),
{
    let st = stages(names, g, c, count);
    assert forall|k: int| 0 <= k < st.len() implies #[trigger] st[k].no_duplicates() && forall|x: Name|
        st[k].contains(x) <==> names.contains(x) && layer(g, c, k as nat).contains(x) by {
        lemma_keep(names, layer(g, c, k as nat));
    }
    assert forall|k: int, i: int, j: int|
        0 <= k < st.len() && 0 <= i < st[k].len() && 0 <= j < g[st[k][i]].len() implies #[trigger] staged_before(
        st,
        k,
        g[st[k][i]][j],
    ) by {
        let x = st[k][i];
        assert(st[k].contains(x));
        let e = lemma_prerequisites_earlier(g, c, k as nat, x, j);
        let q = g[x][j];
        assert(st[e as int].contains(q));
        let f = choose|f: int| 0 <= f < st[e as int].len() && st[e as int][f] == q;
        assert(e < k && occurs(st, e as int, f, g[st[k][i]][j]));
    }
    assert(prerequisites_first(g, st));
    assert forall|n: Name| c.contains(n) implies exists|k: int, i: int| occurs(st, k, i, n) by {
        let k = lemma_resolved_in_layer(g, c, count, n);
        assert(st[k as int].contains(n));
        let i = choose|i: int| 0 <= i < st[k as int].len() && st[k as int][i] == n;
        assert(occurs(st, k as int, i, n));
    }
    assert forall|k: int, i: int, n: Name| occurs(st, k, i, n) implies c.contains(n) by {
        assert(st[k].contains(n));
    }
    assert forall|k: int, i: int, k2: int, i2: int, n: Name|
        occurs(st, k, i, n) && occurs(st, k2, i2, n) implies k == k2 && i == i2 by {
        assert(st[k].contains(n));
        assert(st[k2].contains(n));
        lemma_layers_disjoint(g, c, k as nat, k2 as nat, n);
        assert(st[k].no_duplicates());
    }
}

/// A requested name is reachable.
pub proof fn lemma_root_reachable(g: Graph, roots: Set<Name>, r: Name)
    requires
        roots.contains(r),
    ensures
        reachable(g, roots, r),
{
    let p = seq![r];
    assert(leads_to(g, roots, p, r));
}

/// A prerequisite of a reachable chain is reachable.
pub proof fn lemma_reach_step(g: Graph, roots: Set<Name>, a: Name, b: Name)
    requires
        reachable(g, roots, a),
        edge(g, a, b),
    ensures
        reachable(g, roots, b),
{
    let p = choose|p: Seq<Name>| leads_to(g, roots, p, a);
    let q = p.push(b);
    assert forall|i: int| 0 <= i < q.len() - 1 implies #[trigger] step(g, q, i) by {
        if i < p.len() - 1 {
            assert(step(g, p, i));
        }
    }
    assert(leads_to(g, roots, q, b));
}

proof fn lemma_path_within(g: Graph, s: Set<Name>, p: Seq<Name>, i: int)
    requires
        is_path(g, p),
        s.contains(p[0]),
        forall|a: Name, b: Name| s.contains(a) && #[trigger] edge(g, a, b) ==> s.contains(b),
        0 <= i < p.len(),
    ensures
        s.contains(p[i]),
    decreases i,
{
    if i > 0 {
        lemma_path_within(g, s, p, i - 1);
        assert(step(g, p, i - 1));
    }
}

/// A set that holds the requested names, and with each chain its
/// prerequisites, holds every reachable name.
pub proof fn lemma_closed_set_covers(g: Graph, roots: Set<Name>, s: Set<Name>, n: Name)
    requires
        forall|r: Name| roots.contains(r) ==> s.contains(r),
        forall|a: Name, b: Name| s.contains(a) && #[trigger] edge(g, a, b) ==> s.contains(b),
        reachable(g, roots, n),
    ensures
        s.contains(n),
{
    let p = choose|p: Seq<Name>| leads_to(g, roots, p, n);
    lemma_path_within(g, s, p, p.len() - 1);
}

/// The layers hold chains of `c` only.
pub proof fn lemma_resolved_within(g: Graph, c: Set<Name>, k: nat)
    ensures
        resolved(g, c, k).subset_of(c),
    decreases k,
{
    if k > 0 {
        lemma_resolved_within(g, c, (k - 1) as nat);
    }
}

/// Later layers add to what earlier layers hold.
pub proof fn lemma_resolved_grows(g: Graph, c: Set<Name>, j: nat, k: nat)
    requires
        j <= k,
    ensures
        resolved(g, c, j).subset_of(resolved(g, c, k)),
    decreases k,
{
    if j < k {
        lemma_resolved_grows(g, c, j, (k - 1) as nat);
    }
}

/// What the first `k` layers hold lies in one of them.
pub proof fn lemma_resolved_in_layer(g: Graph, c: Set<Name>, k: nat, n: Name) -> (j: nat)
    requires
        resolved(g, c, k).contains(n),
    ensures
        j < k,
        layer(g, c, j).contains(n),
    decreases k,
{
    if resolved(g, c, (k - 1) as nat).contains(n) {
        lemma_resolved_in_layer(g, c, (k - 1) as nat, n)
    } else {
        (k - 1) as nat
    }
}

/// Every chain's prerequisites lie in strictly earlier layers.
pub proof fn lemma_prerequisites_earlier(g: Graph, c: Set<Name>, k: nat, n: Name, i: int) -> (j: nat)
    requires
        layer(g, c, k).contains(n),
        0 <= i < g[n].len(),
    ensures
        j < k,
        layer(g, c, j).contains(g[n][i]),
{
    lemma_resolved_in_layer(g, c, k, g[n][i])
}

/// No chain lies in two layers.
pub proof fn lemma_layers_disjoint(g: Graph, c: Set<Name>, j: nat, k: nat, n: Name)
    requires
        layer(g, c, j).contains(n),
        layer(g, c, k).contains(n),
    ensures
        j == k,
{
    if j < k {
        lemma_resolved_grows(g, c, j + 1, k);
        assert(resolved(g, c, j + 1).contains(n));
    } else if k < j {
        lemma_resolved_grows(g, c, k + 1, j);
        assert(resolved(g, c, k + 1).contains(n));
    }
}

/// The number of layers that hold all of `c` is unique.
pub proof fn lemma_layer_count_unique(g: Graph, c: Set<Name>, j: nat, k: nat)
    requires
        layered_in(g, c, j),
        layered_in(g, c, k),
    ensures
        j == k,
{
    if j < k {
        assert(layer_occupied(g, c, j));
        let n = choose|n: Name| layer(g, c, j).contains(n);
        assert(layer(g, c, j).contains(n));
    } else if k < j {
        assert(layer_occupied(g, c, k));
        let n = choose|n: Name| layer(g, c, k).contains(n);
        assert(layer(g, c, k).contains(n));
    }
}

/// No chain of a cycle ever lies in a layer.
pub proof fn lemma_cycle_blocks(g: Graph, c: Set<Name>, p: Seq<Name>, k: nat, i: int)
    requires
        is_path(g, p),
        p.len() >= 2,
        p[0] == p.last(),
        0 <= i < p.len(),
    ensures
        !resolved(g, c, k).contains(p[i]),
    decreases k,
{
    if k > 0 {
        let before = resolved(g, c, (k - 1) as nat);
        lemma_cycle_blocks(g, c, p, (k - 1) as nat, i);
        let from: int = if i == p.len() - 1 {
            0
        } else {
            i
        };
        assert(p[from] == p[i]);
        assert(step(g, p, from));
        lemma_cycle_blocks(g, c, p, (k - 1) as nat, from + 1);
        if ready(g, c, before).contains(p[i]) {
            let next = p[from + 1];
            let at = choose|at: int| 0 <= at < g[p[i]].len() && g[p[i]][at] == next;
            assert(before.contains(g[p[i]][at]));
        }
    }
}

/// With a reachable cycle the layers never hold every reachable chain.
pub proof fn lemma_cycle_never_layered(g: Graph, roots: Set<Name>, k: nat)
    requires
        has_cycle(g, roots),
    ensures
        !layered_in(g, closure(g, roots), k),
{
    let p = choose|p: Seq<Name>| is_cycle(g, roots, p);
    lemma_cycle_blocks(g, closure(g, roots), p, k, 0);
    assert(closure(g, roots).contains(p[0]));
}

/// A prerequisite of `n` that is reachable but in no layer before `k`.
pub open spec fn blocker(g: Graph, c: Set<Name>, k: nat, n: Name) -> Name {
    choose|q: Name| edge(g, n, q) && c.contains(q) && !resolved(g, c, k).contains(q)
}

/// The chain reached from `m` after `i` steps from a chain to its blocker.
pub open spec fn blocked_walk(g: Graph, c: Set<Name>, k: nat, m: Name, i: nat) -> Name
    decreases i,
{
    if i == 0 {
        m
    } else {
        blocker(g, c, k, blocked_walk(g, c, k, m, (i - 1) as nat))
    }
}

proof fn lemma_blocked_walk(g: Graph, roots: Set<Name>, k: nat, m: Name, i: nat)
    requires
        complete(g, roots),
        forall|n: Name| !layer(g, closure(g, roots), k).contains(n),
        closure(g, roots).contains(m),
        !resolved(g, closure(g, roots), k).contains(m),
    ensures
        closure(g, roots).contains(blocked_walk(g, closure(g, roots), k, m, i)),
        !resolved(g, closure(g, roots), k).contains(blocked_walk(g, closure(g, roots), k, m, i)),
        edge(
            g,
            blocked_walk(g, closure(g, roots), k, m, i),
            blocked_walk(g, closure(g, roots), k, m, i + 1),
        ),
        closure(g, roots).contains(blocked_walk(g, closure(g, roots), k, m, i + 1)),
        !resolved(g, closure(g, roots), k).contains(blocked_walk(g, closure(g, roots), k, m, i + 1)),
    decreases i,
{
    let c = closure(g, roots);
    if i > 0 {
        lemma_blocked_walk(g, roots, k, m, (i - 1) as nat);
    }
    let n = blocked_walk(g, c, k, m, i);
    assert(c.contains(n) && !resolved(g, c, k).contains(n));
    assert(!layer(g, c, k).contains(n));
    assert(!pre_done(g, n, resolved(g, c, k)));
    let at = choose|at: int| 0 <= at < g[n].len() && !resolved(g, c, k).contains(#[trigger] g[n][at]);
    let q = g[n][at];
    assert(reachable(g, roots, n));
    assert(g.contains_key(n));
    assert(edge(g, n, q));
    lemma_reach_step(g, roots, n, q);
    assert(edge(g, n, q) && c.contains(q) && !resolved(g, c, k).contains(q));
    assert(blocked_walk(g, c, k, m, i + 1) == blocker(g, c, k, n));
}

/// Where a layer is empty before every reachable chain lies in one, some
/// reachable chain depends on itself.
pub proof fn lemma_stall_has_cycle(g: Graph, roots: Set<Name>, k: nat)
    requires
        g.dom().finite(),
        complete(g, roots),
        stalls_at(g, closure(g, roots), k),
    ensures
        has_cycle(g, roots),
{
    let c = closure(g, roots);
    let m = choose|m: Name| c.contains(m) && !resolved(g, c, k).contains(m);
    let len = g.dom().len() + 1;
    let w = Seq::new(len, |i: int| blocked_walk(g, c, k, m, i as nat));
    assert forall|i: int| 0 <= i < w.len() implies g.dom().contains(#[trigger] w[i]) by {
        lemma_blocked_walk(g, roots, k, m, i as nat);
        assert(reachable(g, roots, w[i]));
    }
    if w.no_duplicates() {
        w.unique_seq_to_set();
        assert(w.to_set().subset_of(g.dom())) by {
            assert forall|n: Name| w.to_set().contains(n) implies g.dom().contains(n) by {
                let i = choose|i: int| 0 <= i < w.len() && w[i] == n;
                assert(g.dom().contains(w[i]));
            }
        }
        vstd::set_lib::lemma_len_subset(w.to_set(), g.dom());
        assert(false);
    }
    let (a, b) = choose|a: int, b: int| 0 <= a < w.len() && 0 <= b < w.len() && a != b && w[a] == w[b];
    let lo = if a < b {
        a
    } else {
        b
    };
    let hi = if a < b {
        b
    } else {
        a
    };
    let p = w.subrange(lo, hi + 1);
    assert forall|i: int| 0 <= i < p.len() - 1 implies #[trigger] step(g, p, i) by {
        lemma_blocked_walk(g, roots, k, m, (lo + i) as nat);
        assert(p[i] == w[lo + i]);
        assert(p[i + 1] == w[lo + i + 1]);
    }
    lemma_blocked_walk(g, roots, k, m, lo as nat);
    assert(p[0] == w[lo]);
    assert(p.last() == w[hi]);
    assert(is_cycle(g, roots, p));
}

/// The reachable chains of a complete request are chains of the catalog.
pub proof fn lemma_closure_within(g: Graph, roots: Set<Name>)
    requires
        g.dom().finite(),
        complete(g, roots),
    ensures
        closure(g, roots).subset_of(g.dom()),
        closure(g, roots).finite(),
{
    assert(closure(g, roots).subset_of(g.dom()));
    vstd::set_lib::lemma_len_subset(closure(g, roots), g.dom());
}

proof fn lemma_layers_fill(g: Graph, roots: Set<Name>, k: nat)
    requires
        g.dom().finite(),
        complete(g, roots),
        !has_cycle(g, roots),
        forall|j: nat| j < k ==> #[trigger] layer_occupied(g, closure(g, roots), j),
    ensures
        exists|count: nat| layered_in(g, closure(g, roots), count),
    decreases closure(g, roots).len() - resolved(g, closure(g, roots), k).len(),
{
    let c = closure(g, roots);
    let now = resolved(g, c, k);
    lemma_closure_within(g, roots);
    lemma_resolved_within(g, c, k);
    vstd::set_lib::lemma_len_subset(now, c);
    if now =~= c {
        assert(layered_in(g, c, k));
    } else {
        let m = choose|m: Name| c.contains(m) && !now.contains(m);
        if forall|n: Name| !layer(g, c, k).contains(n) {
            assert(stalls_at(g, c, k));
            lemma_stall_has_cycle(g, roots, k);
        } else {
            let x = choose|x: Name| layer(g, c, k).contains(x);
            let next = resolved(g, c, k + 1);
            lemma_resolved_within(g, c, k + 1);
            vstd::set_lib::lemma_len_subset(next, c);
            assert(next.contains(x));
            assert(now.subset_of(next.remove(x)));
            vstd::set_lib::lemma_len_subset(now, next.remove(x));
            assert(layer_occupied(g, c, k));
            lemma_layers_fill(g, roots, k + 1);
        }
    }
}

/// Where every reachable name is a chain of the catalog and no reachable
/// chain depends on itself, finitely many layers, none of them empty, hold
/// all reachable chains: the stages of the request are defined.
pub proof fn lemma_acyclic_is_layered(g: Graph, roots: Set<Name>)
    requires
        g.dom().finite(),
        complete(g, roots),
        !has_cycle(g, roots),
    ensures
        layered_in(g, closure(g, roots), layer_count(g, closure(g, roots))),
{
    lemma_layers_fill(g, roots, 0);
}

} // verus!
