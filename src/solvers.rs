//! Transitive dependency closure and install planning.
use vstd::prelude::*;
use crate::debversion::{DebianVersionNum, VersionRelation, cmp_debversion_with_op, version_cmp};
use crate::packages::{Dependency, Packages, RelVersionedPackageNum, deps_in_range};

verus! {

/// The planner needed the available version of a package that has none.
#[derive(Clone, Copy, Debug, PartialEq, Eq, Structural)]
pub enum PlanError {
    MissingAvailable(usize),
}

/// `s` walks along `edge` in at least one step.
pub open spec fn is_path(edge: spec_fn(usize, usize) -> bool, s: Seq<usize>) -> bool {
    &&& s.len() >= 2
    &&& forall|i: int| 0 <= i < s.len() - 1 ==> #[trigger] edge(s[i], s[i + 1])
}

/// `b` can be reached from `a` in one step or more.
pub open spec fn reachable(edge: spec_fn(usize, usize) -> bool, a: usize, b: usize) -> bool {
    exists|s: Seq<usize>| is_path(edge, s) && s[0] == a && s.last() == b
}

pub proof fn lemma_path_extend(edge: spec_fn(usize, usize) -> bool, a: usize, b: usize, c: usize)
    requires
        a == b || reachable(edge, a, b),
        edge(b, c),
    ensures
        reachable(edge, a, c),
{
    if a == b {
        let s = seq![a, c];
        let z: int = 0;
        assert(edge(s[z], s[z + 1]));
        assert(is_path(edge, s) && s[0] == a && s.last() == c);
    } else {
        let s = choose|s: Seq<usize>| is_path(edge, s) && s[0] == a && s.last() == b;
        let t = s.push(c);
        assert forall|i: int| 0 <= i < t.len() - 1 implies #[trigger] edge(t[i], t[i + 1]) by {
            if i < s.len() - 1 {
                assert(edge(s[i], s[i + 1]));
            }
        }
        assert(is_path(edge, t) && t[0] == a && t.last() == c);
    }
}

/// A list that holds every step out of `a` and every step out of its own
/// members holds everything reachable from `a`.
pub proof fn lemma_closed_holds_reachable(edge: spec_fn(usize, usize) -> bool, a: usize, l: Seq<usize>, b: usize)
    requires
        forall|q: usize| #[trigger] edge(a, q) ==> l.contains(q),
        forall|p: usize, q: usize| l.contains(p) && #[trigger] edge(p, q) ==> l.contains(q),
        reachable(edge, a, b),
    ensures
        l.contains(b),
{
    let s = choose|s: Seq<usize>| is_path(edge, s) && s[0] == a && s.last() == b;
    lemma_path_steps_held(edge, a, l, s, s.len() - 1);
}

proof fn lemma_path_steps_held(edge: spec_fn(usize, usize) -> bool, a: usize, l: Seq<usize>, s: Seq<usize>, k: int)
    requires
        forall|q: usize| #[trigger] edge(a, q) ==> l.contains(q),
        forall|p: usize, q: usize| l.contains(p) && #[trigger] edge(p, q) ==> l.contains(q),
        is_path(edge, s),
        s[0] == a,
        1 <= k < s.len(),
    ensures
        l.contains(s[k]),
    decreases k,
{
    let i = k - 1;
    assert(edge(s[i], s[i + 1]));
    if k > 1 {
        lemma_path_steps_held(edge, a, l, s, k - 1);
    }
}

/// A list without repeats of numbers below `n` has at most `n` members.
pub proof fn lemma_distinct_below(l: Seq<usize>, n: nat)
    requires
        l.no_duplicates(),
        forall|i: int| 0 <= i < l.len() ==> (#[trigger] l[i]) < n,
    ensures
        l.len() <= n,
{
    let t = Seq::new(l.len(), |i: int| l[i] as int);
    assert(t.no_duplicates()) by {
        assert forall|i: int, j: int| 0 <= i < t.len() && 0 <= j < t.len() && i != j implies t[i] != t[j] by {
            assert(l[i] != l[j]);
        }
    }
    t.unique_seq_to_set();
    vstd::set_lib::lemma_int_range(0, n as int);
    assert(t.to_set().subset_of(vstd::set_lib::set_int_range(0, n as int))) by {
        assert forall|x: int| t.to_set().contains(x) implies vstd::set_lib::set_int_range(0, n as int).contains(x) by {
            let i = choose|i: int| 0 <= i < t.len() && t[i] == x;
            assert(l[i] < n);
        }
    }
    vstd::set_lib::lemma_len_subset(t.to_set(), vstd::set_lib::set_int_range(0, n as int));
}

/// `l` is `old` with items added at the end.
pub open spec fn extends_list(old: Seq<usize>, l: Seq<usize>) -> bool {
    old.len() <= l.len() && l.subrange(0, old.len() as int) == old
}

pub proof fn lemma_extends_list_contains(old: Seq<usize>, l: Seq<usize>, x: usize)
    requires
        extends_list(old, l),
        old.contains(x),
    ensures
        l.contains(x),
{
    let i = choose|i: int| 0 <= i < old.len() && old[i] == x;
    assert(l.subrange(0, old.len() as int)[i] == l[i]);
}

/// `seen` marks exactly the members of `order`, which has no repeats and
/// holds only numbers below `n`.
pub open spec fn worklist_ok(seen: Seq<bool>, order: Seq<usize>, n: nat) -> bool {
    &&& seen.len() == n
    &&& order.no_duplicates()
    &&& forall|i: int| 0 <= i < order.len() ==> (#[trigger] order[i]) < n
    &&& forall|x: usize| x < n ==> (#[trigger] seen[x as int] <==> order.contains(x))
}

fn mark_new(seen: &mut Vec<bool>, order: &mut Vec<usize>, q: usize, Ghost(n): Ghost<nat>)
    requires
        worklist_ok(old(seen)@, old(order)@, n),
        q < n,
    ensures
        worklist_ok(final(seen)@, final(order)@, n),
        extends_list(old(order)@, final(order)@),
        final(order)@.contains(q),
        forall|x: usize| #[trigger] final(order)@.contains(x) ==> old(order)@.contains(x) || x == q,
{
    if !seen[q] {
        let ghost prev = order@;
        let ghost prev_seen = seen@;
        seen.set(q, true);
        order.push(q);
        proof {
            assert(order@[prev.len() as int] == q);
            assert(order@.contains(q));
            assert(order@.subrange(0, prev.len() as int) =~= prev);
            assert forall|x: usize| x < n implies (#[trigger] seen@[x as int] <==> order@.contains(x)) by {
                if x != q {
                    assert(seen@[x as int] == prev_seen[x as int]);
                    if order@.contains(x) {
                        let i = choose|i: int| 0 <= i < order@.len() && order@[i] == x;
                        assert(i < prev.len());
                        assert(prev[i] == x);
                    }
                    if prev.contains(x) {
                        lemma_extends_list_contains(prev, order@, x);
                    }
                }
            }
            assert forall|x: usize| #[trigger] order@.contains(x) implies prev.contains(x) || x == q by {
                let i = choose|i: int| 0 <= i < order@.len() && order@[i] == x;
                if i < prev.len() {
                    assert(prev[i] == x);
                }
            }
        }
    } else {
        assert(order@.subrange(0, order@.len() as int) =~= order@);
    }
}

impl Packages {
    /// The steps of the transitive solution: first alternatives only.
    pub open spec fn first_alt_edges(&self) -> spec_fn(usize, usize) -> bool {
        |p: usize, q: usize| self.first_alt_edge(p, q)
    }

    /// The steps of the install plan: what the planner picks for each dependency.
    pub open spec fn plan_edges(&self) -> spec_fn(usize, usize) -> bool {
        |p: usize, q: usize| self.plan_edge(p, q)
    }

    fn push_first_alternatives(
        &self,
        p: usize,
        seen: &mut Vec<bool>,
        order: &mut Vec<usize>,
        Ghost(start): Ghost<usize>,
    )
        requires
            self.wf(),
            p < self.num_packages(),
            worklist_ok(old(seen)@, old(order)@, self.num_packages()),
            p == start || reachable(self.first_alt_edges(), start, p),
            forall|i: int| 0 <= i < old(order)@.len() ==> reachable(self.first_alt_edges(), start, #[trigger] old(order)@[i]),
        ensures
            worklist_ok(final(seen)@, final(order)@, self.num_packages()),
            extends_list(old(order)@, final(order)@),
            forall|i: int| 0 <= i < final(order)@.len() ==> reachable(self.first_alt_edges(), start, #[trigger] final(order)@[i]),
            forall|q: usize| self.first_alt_edge(p, q) ==> #[trigger] final(order)@.contains(q),
    {
        let ghost n = self.num_packages();
        let ghost e = self.first_alt_edges();
        let ghost first = order@;
        let deps = match &self.dependencies[p] {
            Some(d) => d,
            None => {
                assert(order@.subrange(0, order@.len() as int) =~= order@);
                return;
            },
        };
        let mut i: usize = 0;
        assert(order@.subrange(0, order@.len() as int) =~= order@);
        while i < deps.len()
            invariant
                self.wf(),
                n == self.num_packages(),
                e == self.first_alt_edges(),
                p < n,
                deps@ == self.deps_of(p as int),
                self.dependencies@[p as int] is Some,
                i <= deps@.len(),
                worklist_ok(seen@, order@, n),
                extends_list(first, order@),
                p == start || reachable(e, start, p),
                forall|m: int| 0 <= m < order@.len() ==> reachable(e, start, #[trigger] order@[m]),
                forall|m: int| 0 <= m < i && deps@[m]@.len() > 0 ==> order@.contains(#[trigger] deps@[m]@[0].package_num),
            decreases deps@.len() - i,
        {
            if deps[i].len() > 0 {
                let q = deps[i][0].package_num;
                proof {
                    assert(self.first_alt_edge(p, q));
                    assert(e(p, q));
                    lemma_path_extend(e, start, p, q);
                    assert(deps_in_range(deps@, n));
                    assert(deps@[i as int]@[0].package_num < n);
                }
                let ghost prev = order@;
                mark_new(seen, order, q, Ghost(n));
                proof {
                    assert forall|m: int| 0 <= m < order@.len() implies reachable(e, start, #[trigger] order@[m]) by {
                        if order@[m] != q {
                            assert(order@.contains(order@[m]));
                            let j = choose|j: int| 0 <= j < prev.len() && prev[j] == order@[m];
                        }
                    }
                    assert forall|m: int| 0 <= m < i + 1 && deps@[m]@.len() > 0 implies order@.contains(#[trigger] deps@[m]@[0].package_num) by {
                        if m < i {
                            lemma_extends_list_contains(prev, order@, deps@[m]@[0].package_num);
                        }
                    }
                    assert(order@.subrange(0, first.len() as int) =~= first) by {
                        assert(order@.subrange(0, prev.len() as int) == prev);
                        assert(prev.subrange(0, first.len() as int) == first);
                    }
                }
            }
            i = i + 1;
        }
        proof {
            assert forall|q: usize| self.first_alt_edge(p, q) implies #[trigger] order@.contains(q) by {
                let m = choose|m: int|
                    0 <= m < self.deps_of(p as int).len() && self.deps_of(p as int)[m]@.len() > 0
                        && (#[trigger] self.deps_of(p as int)[m])@[0].package_num == q;
                assert(deps@[m]@[0].package_num == q);
            }
        }
    }

    fn empty_marks(&self) -> (r: Vec<bool>)
        ensures
            r@.len() == self.num_packages(),
            forall|x: int| 0 <= x < r@.len() ==> !#[trigger] r@[x],
    {
        let mut seen: Vec<bool> = Vec::new();
        let n = self.package_names.len();
        while seen.len() < n
            invariant
                seen@.len() <= n,
                n == self.num_packages(),
                forall|x: int| 0 <= x < seen@.len() ==> !#[trigger] seen@[x],
            decreases n - seen@.len(),
        {
            seen.push(false);
        }
        seen
    }

    /// Every package reachable from `package_name` when each dependency is
    /// met by its first alternative, whatever is installed; each once.
    pub fn transitive_dep_solution(&self, package_name: &str) -> (r: Vec<usize>)
        requires
            self.wf(),
        ensures
            !self.knows(package_name@) ==> r@.len() == 0,
            self.knows(package_name@) ==> r@.no_duplicates() && forall|q: usize|
                #[trigger] r@.contains(q) <==> reachable(self.first_alt_edges(), self.num_of(package_name@), q),
    {
        let start = match self.get_package_num(package_name) {
            Some(p) => p,
            None => {
                return Vec::new();
            },
        };
        let ghost n = self.num_packages();
        let ghost e = self.first_alt_edges();
        let mut seen = self.empty_marks();
        let mut order: Vec<usize> = Vec::new();
        proof {
            assert forall|x: usize| x < n implies (#[trigger] seen@[x as int] <==> order@.contains(x)) by {}
        }
        self.push_first_alternatives(start, &mut seen, &mut order, Ghost(start));
        let ghost from_start = order@;
        assert(order@.subrange(0, from_start.len() as int) =~= from_start);
        let mut head: usize = 0;
        while head < order.len()
            invariant
                self.wf(),
                n == self.num_packages(),
                e == self.first_alt_edges(),
                start < n,
                head <= order@.len(),
                worklist_ok(seen@, order@, n),
                extends_list(from_start, order@),
                forall|q: usize| self.first_alt_edge(start, q) ==> #[trigger] from_start.contains(q),
                forall|m: int| 0 <= m < order@.len() ==> reachable(e, start, #[trigger] order@[m]),
                forall|k: int, q: usize| 0 <= k < head && #[trigger] self.first_alt_edge(order@[k], q) ==> order@.contains(q),
            decreases n - order@.len(), order@.len() - head,
        {
            let p = order[head];
            let ghost prev = order@;
            proof {
                lemma_distinct_below(order@, n);
            }
            self.push_first_alternatives(p, &mut seen, &mut order, Ghost(start));
            proof {
                lemma_distinct_below(order@, n);
                assert(order@.subrange(0, from_start.len() as int) =~= from_start) by {
                    assert(order@.subrange(0, prev.len() as int) == prev);
                    assert(prev.subrange(0, from_start.len() as int) == from_start);
                }
                assert forall|k: int, q: usize| 0 <= k < head + 1 && #[trigger] self.first_alt_edge(order@[k], q) implies order@.contains(q) by {
                    assert(order@.subrange(0, prev.len() as int)[k] == order@[k]);
                    if k < head {
                        assert(prev[k] == order@[k]);
                        lemma_extends_list_contains(prev, order@, q);
                    }
                }
            }
            head = head + 1;
        }
        proof {
            assert forall|q: usize| #[trigger] order@.contains(q) <==> reachable(e, start, q) by {
                if order@.contains(q) {
                    let m = choose|m: int| 0 <= m < order@.len() && order@[m] == q;
                    assert(reachable(e, start, order@[m]));
                }
                if reachable(e, start, q) {
                    assert forall|x: usize| #[trigger] e(start, x) implies order@.contains(x) by {
                        assert(self.first_alt_edge(start, x));
                        lemma_extends_list_contains(from_start, order@, x);
                    }
                    assert forall|a: usize, b: usize| order@.contains(a) && #[trigger] e(a, b) implies order@.contains(b) by {
                        let k = choose|k: int| 0 <= k < order@.len() && order@[k] == a;
                        assert(self.first_alt_edge(order@[k], b));
                    }
                    lemma_closed_holds_reachable(e, start, order@, q);
                }
            }
        }
        order
    }

    fn push_plan_choices(
        &self,
        p: usize,
        seen: &mut Vec<bool>,
        order: &mut Vec<usize>,
        Ghost(start): Ghost<usize>,
    ) -> (r: Result<(), PlanError>)
        requires
            self.wf(),
            p < self.num_packages(),
            worklist_ok(old(seen)@, old(order)@, self.num_packages()),
            p == start || reachable(self.plan_edges(), start, p),
            forall|i: int| 0 <= i < old(order)@.len() ==> reachable(self.plan_edges(), start, #[trigger] old(order)@[i]),
        ensures
            worklist_ok(final(seen)@, final(order)@, self.num_packages()),
            extends_list(old(order)@, final(order)@),
            forall|i: int| 0 <= i < final(order)@.len() ==> reachable(self.plan_edges(), start, #[trigger] final(order)@[i]),
            r is Err <==> self.plan_blocked_at(p),
            r is Ok ==> forall|q: usize| self.plan_edge(p, q) ==> #[trigger] final(order)@.contains(q),
    {
        let ghost n = self.num_packages();
        let ghost e = self.plan_edges();
        let ghost first = order@;
        let deps = match &self.dependencies[p] {
            Some(d) => d,
            None => {
                assert(order@.subrange(0, order@.len() as int) =~= order@);
                return Ok(());
            },
        };
        let mut i: usize = 0;
        assert(order@.subrange(0, order@.len() as int) =~= order@);
        while i < deps.len()
            invariant
                self.wf(),
                n == self.num_packages(),
                e == self.plan_edges(),
                first == old(order)@,
                p < n,
                deps@ == self.deps_of(p as int),
                self.dependencies@[p as int] is Some,
                i <= deps@.len(),
                worklist_ok(seen@, order@, n),
                extends_list(first, order@),
                p == start || reachable(e, start, p),
                forall|m: int| 0 <= m < order@.len() ==> reachable(e, start, #[trigger] order@[m]),
                forall|m: int| 0 <= m < i ==> !self.lacks_available(#[trigger] deps@[m]@),
                forall|m: int| 0 <= m < i && self.plan_choice(deps@[m]@) is Some ==> order@.contains(
                    #[trigger] self.plan_choice(deps@[m]@)->Some_0,
                ),
            decreases deps@.len() - i,
        {
            match self.handle_dependency(&deps[i]) {
                Err(err) => {
                    assert(self.lacks_available(deps@[i as int]@));
                    return Err(err);
                },
                Ok(None) => {},
                Ok(Some(q)) => {
                    proof {
                        assert(self.plan_edge(p, q));
                        assert(e(p, q));
                        lemma_path_extend(e, start, p, q);
                        lemma_plan_choice_in_range(self, deps@[i as int]@);
                        assert(deps_in_range(deps@, n));
                    }
                    let ghost prev = order@;
                    mark_new(seen, order, q, Ghost(n));
                    proof {
                        assert forall|m: int| 0 <= m < order@.len() implies reachable(e, start, #[trigger] order@[m]) by {
                            if order@[m] != q {
                                assert(order@.contains(order@[m]));
                                let j = choose|j: int| 0 <= j < prev.len() && prev[j] == order@[m];
                            }
                        }
                        assert forall|m: int| 0 <= m < i + 1 && self.plan_choice(deps@[m]@) is Some implies order@.contains(
                            #[trigger] self.plan_choice(deps@[m]@)->Some_0) by {
                            if m < i {
                                lemma_extends_list_contains(prev, order@, self.plan_choice(deps@[m]@)->Some_0);
                            }
                        }
                        assert(order@.subrange(0, first.len() as int) =~= first) by {
                            assert(order@.subrange(0, prev.len() as int) == prev);
                            assert(prev.subrange(0, first.len() as int) == first);
                        }
                    }
                },
            }
            i = i + 1;
        }
        proof {
            assert forall|q: usize| self.plan_edge(p, q) implies #[trigger] order@.contains(q) by {
                let m = choose|m: int|
                    0 <= m < self.deps_of(p as int).len() && self.plan_choice((#[trigger] self.deps_of(p as int)[m])@) == Some(q);
                assert(self.plan_choice(deps@[m]@) == Some(q));
            }
        }
        Ok(())
    }

    /// The packages to install or upgrade so that the whole dependency tree of
    /// `package_name` is met, given what is installed; each once.
    pub fn compute_how_to_install(&self, package_name: &str) -> (r: Result<Vec<usize>, PlanError>)
        requires
            self.wf(),
        ensures
            !self.knows(package_name@) ==> (r matches Ok(v) && v@.len() == 0),
            self.knows(package_name@) ==> {
                let start = self.num_of(package_name@);
                &&& r is Err <==> (self.plan_blocked_at(start) || exists|q: usize|
                    reachable(self.plan_edges(), start, q) && #[trigger] self.plan_blocked_at(q))
                &&& r matches Ok(v) ==> v@.no_duplicates() && forall|q: usize|
                    #[trigger] v@.contains(q) <==> reachable(self.plan_edges(), start, q)
            },
    {
        let start = match self.get_package_num(package_name) {
            Some(p) => p,
            None => {
                return Ok(Vec::new());
            },
        };
        let ghost n = self.num_packages();
        let ghost e = self.plan_edges();
        let mut seen = self.empty_marks();
        let mut order: Vec<usize> = Vec::new();
        proof {
            assert forall|x: usize| x < n implies (#[trigger] seen@[x as int] <==> order@.contains(x)) by {}
        }
        match self.push_plan_choices(start, &mut seen, &mut order, Ghost(start)) {
            Err(err) => {
                return Err(err);
            },
            Ok(()) => {},
        }
        let ghost from_start = order@;
        assert(order@.subrange(0, from_start.len() as int) =~= from_start);
        let mut head: usize = 0;
        while head < order.len()
            invariant
                self.wf(),
                n == self.num_packages(),
                e == self.plan_edges(),
                start < n,
                self.knows(package_name@),
                start == self.num_of(package_name@),
                head <= order@.len(),
                worklist_ok(seen@, order@, n),
                extends_list(from_start, order@),
                !self.plan_blocked_at(start),
                forall|q: usize| self.plan_edge(start, q) ==> #[trigger] from_start.contains(q),
                forall|m: int| 0 <= m < order@.len() ==> reachable(e, start, #[trigger] order@[m]),
                forall|k: int| 0 <= k < head ==> !#[trigger] self.plan_blocked_at(order@[k]),
                forall|k: int, q: usize| 0 <= k < head && #[trigger] self.plan_edge(order@[k], q) ==> order@.contains(q),
            decreases n - order@.len(), order@.len() - head,
        {
            let p = order[head];
            let ghost prev = order@;
            proof {
                lemma_distinct_below(order@, n);
            }
            match self.push_plan_choices(p, &mut seen, &mut order, Ghost(start)) {
                Err(err) => {
                    assert(reachable(e, start, prev[head as int]));
                    assert(reachable(self.plan_edges(), start, p) && self.plan_blocked_at(p));
                    return Err(err);
                },
                Ok(()) => {},
            }
            proof {
                lemma_distinct_below(order@, n);
                assert(order@.subrange(0, from_start.len() as int) =~= from_start) by {
                    assert(order@.subrange(0, prev.len() as int) == prev);
                    assert(prev.subrange(0, from_start.len() as int) == from_start);
                }
                assert forall|k: int| 0 <= k < head + 1 implies !#[trigger] self.plan_blocked_at(order@[k]) by {
                    assert(order@.subrange(0, prev.len() as int)[k] == order@[k]);
                }
                assert forall|k: int, q: usize| 0 <= k < head + 1 && #[trigger] self.plan_edge(order@[k], q) implies order@.contains(q) by {
                    assert(order@.subrange(0, prev.len() as int)[k] == order@[k]);
                    if k < head {
                        assert(prev[k] == order@[k]);
                        lemma_extends_list_contains(prev, order@, q);
                    }
                }
            }
            head = head + 1;
        }
        proof {
            assert forall|x: usize| #[trigger] e(start, x) implies order@.contains(x) by {
                assert(self.plan_edge(start, x));
                lemma_extends_list_contains(from_start, order@, x);
            }
            assert forall|a: usize, b: usize| order@.contains(a) && #[trigger] e(a, b) implies order@.contains(b) by {
                let k = choose|k: int| 0 <= k < order@.len() && order@[k] == a;
                assert(self.plan_edge(order@[k], b));
            }
            assert forall|q: usize| #[trigger] order@.contains(q) <==> reachable(e, start, q) by {
                if order@.contains(q) {
                    let m = choose|m: int| 0 <= m < order@.len() && order@[m] == q;
                    assert(reachable(e, start, order@[m]));
                }
                if reachable(e, start, q) {
                    lemma_closed_holds_reachable(e, start, order@, q);
                }
            }
            assert forall|q: usize| reachable(e, start, q) implies !#[trigger] self.plan_blocked_at(q) by {
                lemma_closed_holds_reachable(e, start, order@, q);
                let k = choose|k: int| 0 <= k < order@.len() && order@[k] == q;
            }
        }
        Ok(order)
    }

    /// `q` is the first alternative of one of `p`'s dependencies.
    pub open spec fn first_alt_edge(&self, p: usize, q: usize) -> bool {
        exists|i: int|
            0 <= i < self.deps_of(p as int).len() && self.deps_of(p as int)[i]@.len() > 0
                && (#[trigger] self.deps_of(p as int)[i])@[0].package_num == q
    }

    /// `q` is what the planner picks for one of `p`'s dependencies.
    pub open spec fn plan_edge(&self, p: usize, q: usize) -> bool {
        exists|i: int|
            0 <= i < self.deps_of(p as int).len() && self.plan_choice((#[trigger] self.deps_of(p as int)[i])@) == Some(q)
    }

    /// One of the dependencies of `p` cannot be planned for want of an available version.
    pub open spec fn plan_blocked_at(&self, p: usize) -> bool {
        exists|i: int|
            0 <= i < self.deps_of(p as int).len() && self.lacks_available((#[trigger] self.deps_of(p as int)[i])@)
    }

    pub open spec fn available_at(&self, p: usize) -> Option<DebianVersionNum> {
        if p < self.available_debvers@.len() {
            self.available_debvers@[p as int]
        } else {
            None
        }
    }

    /// The packages that an unsatisfied dependency may be met by: those
    /// installed at a wrong version if there are any, else every alternative.
    pub open spec fn candidates(&self, dd: Seq<RelVersionedPackageNum>) -> Seq<usize> {
        if self.wrong_versions(dd).len() > 0 {
            self.wrong_versions(dd)
        } else {
            Seq::new(dd.len(), |i: int| dd[i].package_num)
        }
    }

    /// Among `ids[0..n]`, the first one whose available version is greatest.
    pub open spec fn best_upto(&self, ids: Seq<usize>, n: int) -> usize
        decreases n,
    {
        if n <= 1 {
            ids[0]
        } else {
            let b = self.best_upto(ids, n - 1);
            if version_cmp(self.available_at(ids[n - 1])->Some_0, self.available_at(b)->Some_0) > 0 {
                ids[n - 1]
            } else {
                b
            }
        }
    }

    /// The choice has to compare available versions, and one of them is missing.
    pub open spec fn lacks_available(&self, dd: Seq<RelVersionedPackageNum>) -> bool {
        &&& self.first_satisfied(dd) is None
        &&& self.candidates(dd).len() > 1
        &&& exists|i: int| 0 <= i < self.candidates(dd).len() && (#[trigger] self.available_at(self.candidates(dd)[i])) is None
    }

    /// What must be installed for `dd`: nothing if it is satisfied (or has no
    /// alternative), else the candidate with the greatest available version.
    pub open spec fn plan_choice(&self, dd: Seq<RelVersionedPackageNum>) -> Option<usize> {
        if self.first_satisfied(dd) is Some || self.candidates(dd).len() == 0 {
            None
        } else {
            Some(self.best_upto(self.candidates(dd), self.candidates(dd).len() as int))
        }
    }

    /// Picks, among `ids`, the first one with the greatest available version.
    fn pick_highest_available(&self, ids: &Vec<usize>) -> (r: Result<usize, PlanError>)
        requires
            ids@.len() > 0,
        ensures
            match r {
                Ok(p) => p == self.best_upto(ids@, ids@.len() as int) && (ids@.len() == 1 || forall|i: int|
                    0 <= i < ids@.len() ==> (#[trigger] self.available_at(ids@[i])) is Some),
                Err(PlanError::MissingAvailable(q)) => ids@.len() > 1 && ids@.contains(q) && self.available_at(q) is None,
            },
    {
        if ids.len() == 1 {
            return Ok(ids[0]);
        }
        let mut best = ids[0];
        let mut best_v: &DebianVersionNum = match self.get_available(best) {
            Some(v) => v,
            None => {
                return Err(PlanError::MissingAvailable(best));
            },
        };
        let mut i: usize = 1;
        while i < ids.len()
            invariant
                1 <= i <= ids@.len(),
                best == self.best_upto(ids@, i as int),
                self.available_at(best) == Some(*best_v),
                forall|m: int| 0 <= m < i ==> (#[trigger] self.available_at(ids@[m])) is Some,
            decreases ids@.len() - i,
        {
            let q = ids[i];
            let v = match self.get_available(q) {
                Some(v) => v,
                None => {
                    return Err(PlanError::MissingAvailable(q));
                },
            };
            if cmp_debversion_with_op(&VersionRelation::StrictlyGreater, v, best_v) {
                best = q;
                best_v = v;
            }
            i = i + 1;
        }
        Ok(best)
    }

    fn get_available(&self, p: usize) -> (r: Option<&DebianVersionNum>)
        ensures
            match r {
                Some(v) => self.available_at(p) == Some(*v),
                None => self.available_at(p) is None,
            },
    {
        if p < self.available_debvers.len() {
            match &self.available_debvers[p] {
                Some(v) => Some(v),
                None => None,
            }
        } else {
            None
        }
    }

    /// The package that must be installed or upgraded for dependency `dd`, if any.
    pub fn handle_dependency(&self, dd: &Dependency) -> (r: Result<Option<usize>, PlanError>)
        requires
            self.wf(),
        ensures
            r is Err <==> self.lacks_available(dd@),
            r matches Ok(c) ==> c == self.plan_choice(dd@),
            r matches Err(PlanError::MissingAvailable(q)) ==> self.candidates(dd@).contains(q) && self.available_at(q) is None,
    {
        if self.dep_is_satisfied_2(dd).is_some() {
            return Ok(None);
        }
        let wrong = self.dep_satisfied_by_wrong_version(dd);
        let mut ids: Vec<usize> = Vec::new();
        if wrong.len() > 0 {
            let mut i: usize = 0;
            while i < wrong.len()
                invariant
                    i <= wrong@.len(),
                    wrong@.len() == self.wrong_versions(dd@).len(),
                    forall|m: int| 0 <= m < wrong@.len() ==> (#[trigger] wrong@[m]).0 == self.wrong_versions(dd@)[m],
                    ids@ == self.wrong_versions(dd@).take(i as int),
                decreases wrong@.len() - i,
            {
                ids.push(wrong[i].0);
                i = i + 1;
                assert(ids@ =~= self.wrong_versions(dd@).take(i as int));
            }
        } else {
            let mut i: usize = 0;
            while i < dd.len()
                invariant
                    i <= dd@.len(),
                    ids@ == Seq::new(dd@.len(), |k: int| dd@[k].package_num).take(i as int),
                decreases dd@.len() - i,
            {
                ids.push(dd[i].package_num);
                i = i + 1;
                assert(ids@ =~= Seq::new(dd@.len(), |k: int| dd@[k].package_num).take(i as int));
            }
        }
        assert(ids@ =~= self.candidates(dd@));
        if ids.len() == 0 {
            return Ok(None);
        }
        match self.pick_highest_available(&ids) {
            Ok(p) => Ok(Some(p)),
            Err(e) => Err(e),
        }
    }
}

/// Two lists that each hold exactly what is reachable from the same package
/// hold the same set: recomputing the transitive solution gives the same answer.
pub proof fn lemma_transitive_solution_determined(p: &Packages, start: usize, r1: Seq<usize>, r2: Seq<usize>)
    requires
        forall|q: usize| #[trigger] r1.contains(q) <==> reachable(p.first_alt_edges(), start, q),
        forall|q: usize| #[trigger] r2.contains(q) <==> reachable(p.first_alt_edges(), start, q),
    ensures
        r1.to_set() == r2.to_set(),
{
    assert(r1.to_set() =~= r2.to_set());
}

/// A dependency that is already satisfied adds nothing to the plan.
pub proof fn lemma_satisfied_dependency_planned_as_nothing(p: &Packages, dd: Seq<RelVersionedPackageNum>)
    requires
        p.first_satisfied(dd) is Some,
    ensures
        p.plan_choice(dd) is None,
{
}

/// A single-alternative dependency whose package is installed at a version
/// that meets it adds nothing to the plan.
pub proof fn lemma_single_satisfied_alternative_not_planned(p: &Packages, dd: Seq<RelVersionedPackageNum>)
    requires
        dd.len() == 1,
        p.alt_satisfied(dd[0]),
    ensures
        p.plan_choice(dd) is None,
{
}

/// Of two constrained alternatives where only the first is installed, and at
/// a version that fails its constraint, the plan upgrades the first.
pub proof fn lemma_installed_wrong_version_preferred(p: &Packages, dd: Seq<RelVersionedPackageNum>)
    requires
        dd.len() == 2,
        dd[0].rel_version is Some,
        dd[1].rel_version is Some,
        p.alt_wrong_version(dd[0]),
        p.installed_at(dd[1].package_num) is None,
    ensures
        p.plan_choice(dd) == Some(dd[0].package_num),
{
    assert(!p.alt_satisfied(dd[0]));
    assert(!p.alt_satisfied(dd[1]));
    assert(p.first_satisfied_from(dd, 2) is None);
    assert(p.first_satisfied_from(dd, 1) is None);
    assert(p.wrong_versions_from(dd, 2) =~= Seq::empty());
    assert(p.wrong_versions_from(dd, 1) =~= Seq::empty());
    assert(p.wrong_versions(dd) =~= seq![dd[0].package_num]);
}

/// What the planner picks is one of the dependency's alternatives.
pub proof fn lemma_plan_choice_in_range(p: &Packages, dd: Seq<RelVersionedPackageNum>)
    requires
        p.plan_choice(dd) is Some,
    ensures
        exists|i: int| 0 <= i < dd.len() && dd[i].package_num == p.plan_choice(dd)->Some_0,
{
    let c = p.candidates(dd);
    lemma_best_is_member(p, c, c.len() as int);
    let k = choose|k: int| 0 <= k < c.len() && c[k] == p.best_upto(c, c.len() as int);
    if p.wrong_versions(dd).len() > 0 {
        lemma_wrong_versions_members(p, dd, 0, k);
    } else {
        assert(dd[k].package_num == c[k]);
    }
}

pub proof fn lemma_best_is_member(p: &Packages, ids: Seq<usize>, n: int)
    requires
        1 <= n <= ids.len(),
    ensures
        exists|k: int| 0 <= k < n && ids[k] == p.best_upto(ids, n),
    decreases n,
{
    if n > 1 {
        lemma_best_is_member(p, ids, n - 1);
        if p.best_upto(ids, n) == ids[n - 1] {
            assert(ids[n - 1] == p.best_upto(ids, n));
        } else {
            let k = choose|k: int| 0 <= k < n - 1 && ids[k] == p.best_upto(ids, n - 1);
            assert(ids[k] == p.best_upto(ids, n));
        }
    } else {
        assert(ids[0] == p.best_upto(ids, n));
    }
}

pub proof fn lemma_wrong_versions_members(p: &Packages, dd: Seq<RelVersionedPackageNum>, i: int, k: int)
    requires
        0 <= i,
        0 <= k < p.wrong_versions_from(dd, i).len(),
    ensures
        exists|j: int| i <= j < dd.len() && dd[j].package_num == p.wrong_versions_from(dd, i)[k],
    decreases dd.len() - i,
{
    if i < dd.len() {
        if p.alt_wrong_version(dd[i]) {
            if k == 0 {
                assert(dd[i].package_num == p.wrong_versions_from(dd, i)[k]);
            } else {
                lemma_wrong_versions_members(p, dd, i + 1, k - 1);
                let j = choose|j: int| i + 1 <= j < dd.len() && dd[j].package_num == p.wrong_versions_from(dd, i + 1)[k - 1];
                assert(dd[j].package_num == p.wrong_versions_from(dd, i)[k]);
            }
        } else {
            lemma_wrong_versions_members(p, dd, i + 1, k);
            let j = choose|j: int| i + 1 <= j < dd.len() && dd[j].package_num == p.wrong_versions_from(dd, i + 1)[k];
            assert(dd[j].package_num == p.wrong_versions_from(dd, i)[k]);
        }
    }
}

} // verus!
