//! Environments: variables with distinct names.

use vstd::prelude::*;

verus! {

/// A set of environment variables.  No name occurs twice.
#[derive(Debug)]
pub struct Env {
    vars: Vec<(String, String)>,
}

/// Position `i` of `vars` holds the variable called `name`.
pub open spec fn names_at(vars: Seq<(String, String)>, i: int, name: Seq<char>) -> bool {
    0 <= i < vars.len() && vars[i].0@ == name
}

/// No two positions of `vars` hold the same name.
pub open spec fn distinct_names(vars: Seq<(String, String)>) -> bool {
    forall|i: int, j: int|
        0 <= i < vars.len() && 0 <= j < vars.len() && i != j ==> vars[i].0@ != vars[j].0@
}

/// The mapping from names to values that a list of variables stands for.
pub open spec fn vars_map(vars: Seq<(String, String)>) -> Map<Seq<char>, Seq<char>> {
    Map::new(
        |name: Seq<char>| exists|i: int| names_at(vars, i, name),
        |name: Seq<char>| vars[choose|i: int| names_at(vars, i, name)].1@,
    )
}

impl View for Env {
    type V = Map<Seq<char>, Seq<char>>;

    closed spec fn view(&self) -> Map<Seq<char>, Seq<char>> {
        vars_map(self.vars@)
    }
}

impl DeepView for Env {
    type V = Map<Seq<char>, Seq<char>>;

    open spec fn deep_view(&self) -> Map<Seq<char>, Seq<char>> {
        self@
    }
}

/// The position of `name` in `vars`, if it is there.
fn position(vars: &Vec<(String, String)>, name: &String) -> (r: Option<usize>)
    ensures
        match r {
            Some(i) => names_at(vars@, i as int, name@),
            None => forall|i: int| !names_at(vars@, i, name@),
        },
{
    let mut i: usize = 0;
    while i < vars.len()
        invariant
            i <= vars.len(),
            forall|j: int| 0 <= j < i ==> vars[j].0@ != name@,
        decreases vars.len() - i,
    {
        if vars[i].0 == *name {
            return Some(i);
        }
        i = i + 1;
    }
    None
}

/// `vars` with `name` set to `value`: replaced where the name is present,
/// added at the end where it is not.
fn with_var(vars: Vec<(String, String)>, name: String, value: String) -> (out: Vec<(String, String)>)
    requires
        distinct_names(vars@),
    ensures
        distinct_names(out@),
        vars_map(out@) == vars_map(vars@).insert(name@, value@),
{
    let mut out = vars;
    let ghost before = out@;
    match position(&out, &name) {
        Some(i) => {
            let ghost n = name@;
            let ghost v = value@;
            out.set(i, (name, value));
            assert forall|a: int, b: int|
                0 <= a < out@.len() && 0 <= b < out@.len() && a != b implies out@[a].0@ != out@[b].0@ by {
                assert(before[a].0@ == out@[a].0@);
                assert(before[b].0@ == out@[b].0@);
            }
            assert forall|k: Seq<char>| #[trigger]
                vars_map(out@).contains_key(k) == vars_map(before).insert(n, v).contains_key(
                    k,
                ) by {
                if vars_map(out@).contains_key(k) {
                    let j = choose|j: int| names_at(out@, j, k);
                    assert(names_at(before, j, k));
                }
                if vars_map(before).contains_key(k) {
                    let j = choose|j: int| names_at(before, j, k);
                    assert(names_at(out@, j, k));
                }
                if k == n {
                    assert(names_at(out@, i as int, k));
                }
            }
            assert forall|k: Seq<char>| vars_map(out@).contains_key(k) implies #[trigger] vars_map(
                out@,
            )[k] == vars_map(before).insert(n, v)[k] by {
                let j = choose|j: int| names_at(out@, j, k);
                if k != n {
                    assert(names_at(before, j, k));
                    let j2 = choose|j: int| names_at(before, j, k);
                    assert(j2 == j);
                } else {
                    assert(j == i);
                }
            }
            assert(vars_map(out@) =~= vars_map(before).insert(n, v));
        },
        None => {
            let ghost n = name@;
            let ghost v = value@;
            out.push((name, value));
            assert forall|a: int, b: int|
                0 <= a < out@.len() && 0 <= b < out@.len() && a != b implies out@[a].0@ != out@[b].0@ by {
                if a < before.len() {
                    assert(!names_at(before, a, n));
                }
                if b < before.len() {
                    assert(!names_at(before, b, n));
                }
            }
            assert forall|k: Seq<char>| #[trigger]
                vars_map(out@).contains_key(k) == vars_map(before).insert(n, v).contains_key(
                    k,
                ) by {
                if vars_map(out@).contains_key(k) {
                    let j = choose|j: int| names_at(out@, j, k);
                    if j < before.len() {
                        assert(names_at(before, j, k));
                    }
                }
                if vars_map(before).contains_key(k) {
                    let j = choose|j: int| names_at(before, j, k);
                    assert(names_at(out@, j, k));
                }
                if k == n {
                    assert(names_at(out@, before.len() as int, k));
                }
            }
            assert forall|k: Seq<char>| vars_map(out@).contains_key(k) implies #[trigger] vars_map(
                out@,
            )[k] == vars_map(before).insert(n, v)[k] by {
                let j = choose|j: int| names_at(out@, j, k);
                if k != n {
                    assert(names_at(before, j, k));
                    let j2 = choose|j: int| names_at(before, j, k);
                    assert(j2 == j);
                } else {
                    if j < before.len() {
                        assert(names_at(before, j, n));
                    }
                    assert(j == before.len());
                }
            }
            assert(vars_map(out@) =~= vars_map(before).insert(n, v));
        },
    }
    out
}

impl Env {
    #[verifier::type_invariant]
    spec fn well_formed(self) -> bool {
        distinct_names(self.vars@)
    }

    /// The environment without variables.
    pub fn new() -> (out: Env)
        ensures
            out@ == Map::<Seq<char>, Seq<char>>::empty(),
    {
        let out = Env { vars: Vec::new() };
        assert(out@ =~= Map::<Seq<char>, Seq<char>>::empty());
        out
    }

    /// The number of variables.
    pub fn len(&self) -> (n: usize)
        ensures
            n == self@.dom().len(),
            self@.dom().finite(),
    {
        proof {
            use_type_invariant(self);
            lemma_vars_map_len(self.vars@);
        }
        self.vars.len()
    }

    /// Sets `name` to `value`, whether or not it was set before.
    pub fn set(&mut self, name: String, value: String)
        ensures
            final(self)@ == old(self)@.insert(name@, value@),
    {
        proof {
            use_type_invariant(&*self);
        }
        let mut vars: Vec<(String, String)> = Vec::new();
        std::mem::swap(&mut vars, &mut self.vars);
        self.vars = with_var(vars, name, value);
    }

    /// The value of `name`, if it is set.
    pub fn get(&self, name: &str) -> (out: Option<String>)
        ensures
            match out {
                Some(value) => self@.contains_key(name@) && self@[name@] == value@,
                None => !self@.contains_key(name@),
            },
    {
        proof {
            use_type_invariant(self);
        }
        let key = name.to_owned();
        match position(&self.vars, &key) {
            Some(i) => {
                assert(names_at(self.vars@, i as int, name@));
                Some(self.vars[i].1.clone())
            },
            None => None,
        }
    }

    /// Adds the variables of `other`; where both set a name, the value of
    /// `other` stays.
    pub fn extend(&mut self, other: &Env)
        ensures
            final(self)@ == old(self)@.union_prefer_right(other@),
    {
        proof {
            use_type_invariant(&*self);
            use_type_invariant(other);
        }
        let mut vars: Vec<(String, String)> = Vec::new();
        std::mem::swap(&mut vars, &mut self.vars);
        let ghost start = vars@;
        let mut i: usize = 0;
        while i < other.vars.len()
            invariant
                i <= other.vars.len(),
                distinct_names(vars@),
                distinct_names(other.vars@),
                vars_map(vars@) == vars_map(start).union_prefer_right(
                    vars_map(other.vars@.take(i as int)),
                ),
            decreases other.vars.len() - i,
        {
            let ghost before = vars@;
            let name = other.vars[i].0.clone();
            let value = other.vars[i].1.clone();
            vars = with_var(vars, name, value);
            proof {
                lemma_vars_map_take(other.vars@, i as int);
                assert(vars_map(vars@) =~= vars_map(start).union_prefer_right(
                    vars_map(other.vars@.take(i + 1)),
                ));
            }
            i = i + 1;
        }
        assert(other.vars@.take(i as int) == other.vars@);
        self.vars = vars;
    }

    /// The variables as pairs of name and value, each name once.
    pub fn pairs(&self) -> (out: Vec<(String, String)>)
        ensures
            distinct_names(out@),
            vars_map(out@) == self@,
    {
        proof {
            use_type_invariant(self);
        }
        let mut out: Vec<(String, String)> = Vec::new();
        let mut i: usize = 0;
        while i < self.vars.len()
            invariant
                i <= self.vars.len(),
                out.len() == i,
                forall|j: int| 0 <= j < i ==> out[j].0@ == self.vars[j].0@ && out[j].1@ == self.vars[j].1@,
            decreases self.vars.len() - i,
        {
            out.push((self.vars[i].0.clone(), self.vars[i].1.clone()));
            i = i + 1;
        }
        proof {
            lemma_vars_map_same(out@, self.vars@);
        }
        out
    }

    /// A copy of the environment.
    pub fn duplicate(&self) -> (out: Env)
        ensures
            out@ == self@,
    {
        let vars = self.pairs();
        Env { vars }
    }
}

/// Lists that agree on every name and value stand for the same mapping.
proof fn lemma_vars_map_same(a: Seq<(String, String)>, b: Seq<(String, String)>)
    requires
        a.len() == b.len(),
        forall|j: int| 0 <= j < a.len() ==> a[j].0@ == b[j].0@ && a[j].1@ == b[j].1@,
        distinct_names(b),
    ensures
        distinct_names(a),
        vars_map(a) == vars_map(b),
{
    assert forall|k: Seq<char>| #[trigger] vars_map(a).contains_key(k) == vars_map(b).contains_key(k) by {
        if vars_map(a).contains_key(k) {
            let j = choose|j: int| names_at(a, j, k);
            assert(names_at(b, j, k));
        }
        if vars_map(b).contains_key(k) {
            let j = choose|j: int| names_at(b, j, k);
            assert(names_at(a, j, k));
        }
    }
    assert forall|k: Seq<char>| vars_map(a).contains_key(k) implies #[trigger] vars_map(a)[k] == vars_map(
        b,
    )[k] by {
        let j = choose|j: int| names_at(a, j, k);
        assert(names_at(b, j, k));
        let j2 = choose|j: int| names_at(b, j, k);
        assert(j == j2);
    }
    assert(vars_map(a) =~= vars_map(b));
}

/// One more variable of a list with distinct names adds its binding.
proof fn lemma_vars_map_take(vars: Seq<(String, String)>, i: int)
    requires
        distinct_names(vars),
        0 <= i < vars.len(),
    ensures
        vars_map(vars.take(i + 1)) == vars_map(vars.take(i)).insert(vars[i].0@, vars[i].1@),
{
    let a = vars.take(i + 1);
    let b = vars.take(i);
    let m = vars_map(b).insert(vars[i].0@, vars[i].1@);
    assert forall|k: Seq<char>| #[trigger] vars_map(a).contains_key(k) == m.contains_key(k) by {
        if vars_map(a).contains_key(k) {
            let j = choose|j: int| names_at(a, j, k);
            if j < i {
                assert(names_at(b, j, k));
            }
        }
        if vars_map(b).contains_key(k) {
            let j = choose|j: int| names_at(b, j, k);
            assert(names_at(a, j, k));
        }
        if k == vars[i].0@ {
            assert(names_at(a, i, k));
        }
    }
    assert forall|k: Seq<char>| vars_map(a).contains_key(k) implies #[trigger] vars_map(a)[k] == m[k] by {
        let j = choose|j: int| names_at(a, j, k);
        if k != vars[i].0@ {
            assert(names_at(b, j, k));
            let j2 = choose|j: int| names_at(b, j, k);
            assert(j2 == j);
        } else {
            assert(j == i);
        }
    }
    assert(vars_map(a) =~= m);
}

/// A list with distinct names stands for a mapping with as many keys.
proof fn lemma_vars_map_len(vars: Seq<(String, String)>)
    requires
        distinct_names(vars),
    ensures
        vars_map(vars).dom().finite(),
        vars_map(vars).dom().len() == vars.len(),
    decreases vars.len(),
{
    if vars.len() == 0 {
        assert(vars_map(vars).dom() =~= Set::<Seq<char>>::empty());
    } else {
        let i = vars.len() - 1;
        let rest = vars.take(i);
        assert(distinct_names(rest));
        lemma_vars_map_len(rest);
        lemma_vars_map_take(vars, i);
        assert(vars.take(i + 1) == vars);
        assert(!vars_map(rest).contains_key(vars[i].0@)) by {
            if vars_map(rest).contains_key(vars[i].0@) {
                let j = choose|j: int| names_at(rest, j, vars[i].0@);
                assert(vars[j].0@ == vars[i].0@);
            }
        }
        assert(vars_map(vars).dom() =~= vars_map(rest).dom().insert(vars[i].0@));
    }
}

} // verus!
