//! Whether a dependency is met by what is installed.
use vstd::prelude::*;
use crate::debversion::{DebianVersionNum, cmp_debversion_with_op, relation_holds, version_cmp};
use crate::packages::{Dependency, Packages, RelVersionedPackageNum};

verus! {

/// The report line for a dependency met by `name` at installed version `version`.
pub open spec fn satisfied_line(name: Seq<char>, version: Seq<char>) -> Seq<char> {
    "+ "@ + name + " satisfied by installed version "@ + version
}

impl Packages {
    pub open spec fn installed_at(&self, p: usize) -> Option<DebianVersionNum> {
        if p < self.installed_debvers@.len() {
            self.installed_debvers@[p as int]
        } else {
            None
        }
    }

    /// The alternative's package is installed, at a version that meets its constraint if it has one.
    pub open spec fn alt_satisfied(&self, a: RelVersionedPackageNum) -> bool {
        match self.installed_at(a.package_num) {
            Some(iv) => match a.rel_version {
                Some((op, v)) => relation_holds(op, version_cmp(iv, v)),
                None => true,
            },
            None => false,
        }
    }

    /// The alternative has a constraint and its package is installed at a version that fails it.
    pub open spec fn alt_wrong_version(&self, a: RelVersionedPackageNum) -> bool {
        match self.installed_at(a.package_num) {
            Some(iv) => match a.rel_version {
                Some((op, v)) => !relation_holds(op, version_cmp(iv, v)),
                None => false,
            },
            None => false,
        }
    }

    /// Index of the first alternative at or after `i` that is satisfied.
    pub open spec fn first_satisfied_from(&self, dd: Seq<RelVersionedPackageNum>, i: int) -> Option<int>
        decreases dd.len() - i,
    {
        if i < 0 || i >= dd.len() {
            None
        } else if self.alt_satisfied(dd[i]) {
            Some(i)
        } else {
            self.first_satisfied_from(dd, i + 1)
        }
    }

    /// Index of the first satisfied alternative of `dd`.
    pub open spec fn first_satisfied(&self, dd: Seq<RelVersionedPackageNum>) -> Option<int> {
        self.first_satisfied_from(dd, 0)
    }

    /// The packages of the alternatives at or after `i` installed at a wrong version, in order.
    pub open spec fn wrong_versions_from(&self, dd: Seq<RelVersionedPackageNum>, i: int) -> Seq<usize>
        decreases dd.len() - i,
    {
        if i < 0 || i >= dd.len() {
            Seq::empty()
        } else if self.alt_wrong_version(dd[i]) {
            seq![dd[i].package_num] + self.wrong_versions_from(dd, i + 1)
        } else {
            self.wrong_versions_from(dd, i + 1)
        }
    }

    pub open spec fn wrong_versions(&self, dd: Seq<RelVersionedPackageNum>) -> Seq<usize> {
        self.wrong_versions_from(dd, 0)
    }

    /// The report for `dd`: which alternative meets it, at which installed version.
    pub open spec fn satisfied_report(&self, dd: Seq<RelVersionedPackageNum>) -> Option<Seq<char>> {
        match self.first_satisfied(dd) {
            Some(k) => Some(
                satisfied_line(
                    self.package_names@[dd[k].package_num as int]@,
                    self.installed_at(dd[k].package_num)->Some_0.text@,
                ),
            ),
            None => None,
        }
    }

    /// For each dependency of `package_name`, in order, its report line if it
    /// is satisfied; `None` if there is no such package.
    pub fn deps_available(&self, package_name: &str) -> (r: Option<Vec<Option<String>>>)
        requires
            self.wf(),
        ensures
            r is None <==> !self.knows(package_name@),
            r matches Some(v) ==> {
                let d = self.deps_of(self.num_of(package_name@) as int);
                &&& v@.len() == d.len()
                &&& forall|i: int| 0 <= i < d.len() ==> match #[trigger] v@[i] {
                    Some(line) => self.satisfied_report(d[i]@) == Some(line@),
                    None => self.satisfied_report(d[i]@) is None,
                }
            },
    {
        let p = match self.get_package_num(package_name) {
            Some(p) => p,
            None => {
                return None;
            },
        };
        let mut out: Vec<Option<String>> = Vec::new();
        match &self.dependencies[p] {
            Some(deps) => {
                let mut i: usize = 0;
                while i < deps.len()
                    invariant
                        self.wf(),
                        p < self.num_packages(),
                        deps@ == self.deps_of(p as int),
                        i <= deps@.len(),
                        out@.len() == i,
                        forall|m: int| 0 <= m < i ==> match #[trigger] out@[m] {
                            Some(line) => self.satisfied_report(deps@[m]@) == Some(line@),
                            None => self.satisfied_report(deps@[m]@) is None,
                        },
                    decreases deps@.len() - i,
                {
                    out.push(self.dep_is_satisfied(&deps[i]));
                    i = i + 1;
                }
            },
            None => {},
        }
        Some(out)
    }

    /// The first satisfied alternative's package, in declared order.
    pub fn dep_is_satisfied_2(&self, dd: &Dependency) -> (r: Option<usize>)
        requires
            self.wf(),
        ensures
            match self.first_satisfied(dd@) {
                Some(k) => r == Some(dd@[k].package_num),
                None => r is None,
            },
    {
        let mut i: usize = 0;
        while i < dd.len()
            invariant
                self.wf(),
                i <= dd@.len(),
                self.first_satisfied_from(dd@, i as int) == self.first_satisfied(dd@),
            decreases dd@.len() - i,
        {
            let alt = &dd[i];
            if alt.package_num < self.installed_debvers.len() {
                match &self.installed_debvers[alt.package_num] {
                    Some(iv) => {
                        let ok = match &alt.rel_version {
                            Some((op, v)) => cmp_debversion_with_op(op, iv, v),
                            None => true,
                        };
                        if ok {
                            return Some(alt.package_num);
                        }
                    },
                    None => {},
                }
            }
            i = i + 1;
        }
        None
    }

    /// A report line naming the first satisfied alternative and its installed version.
    pub fn dep_is_satisfied(&self, dd: &Dependency) -> (r: Option<String>)
        requires
            self.wf(),
        ensures
            match r {
                Some(line) => self.satisfied_report(dd@) == Some(line@),
                None => self.satisfied_report(dd@) is None,
            },
    {
        match self.dep_is_satisfied_2(dd) {
            Some(p) => {
                let ghost k = self.first_satisfied(dd@)->Some_0;
                proof {
                    lemma_first_satisfied_is_satisfied(self, dd@, 0);
                }
                let name = self.get_package_name(p);
                let iv = match &self.installed_debvers[p] {
                    Some(iv) => iv,
                    None => {
                        return None;
                    },
                };
                let line = String::from_str("+ ").concat(name.as_str()).concat(
                    " satisfied by installed version ",
                ).concat(iv.text.as_str());
                Some(line)
            },
            None => None,
        }
    }

    /// The packages of the alternatives that are installed at a version failing
    /// their constraint, in declared order, with those installed versions.
    pub fn dep_satisfied_by_wrong_version<'a>(&'a self, dd: &Dependency) -> (r: Vec<(usize, &'a DebianVersionNum)>)
        requires
            self.wf(),
            self.first_satisfied(dd@) is None,
        ensures
            r@.len() == self.wrong_versions(dd@).len(),
            forall|i: int| 0 <= i < r@.len() ==> (#[trigger] r@[i]).0 == self.wrong_versions(dd@)[i]
                && self.installed_at(r@[i].0) == Some(*r@[i].1),
    {
        let mut result: Vec<(usize, &'a DebianVersionNum)> = Vec::new();
        let mut i: usize = dd.len();
        while i > 0
            invariant
                self.wf(),
                i <= dd@.len(),
                result@.len() == self.wrong_versions_from(dd@, i as int).len(),
                forall|m: int| 0 <= m < result@.len() ==> (#[trigger] result@[m]).0
                    == self.wrong_versions_from(dd@, i as int)[result@.len() - 1 - m] && self.installed_at(
                    result@[m].0,
                ) == Some(*result@[m].1),
            decreases i,
        {
            i = i - 1;
            let alt = &dd[i];
            if alt.package_num < self.installed_debvers.len() {
                match &self.installed_debvers[alt.package_num] {
                    Some(iv) => {
                        match &alt.rel_version {
                            Some((op, v)) => {
                                if !cmp_debversion_with_op(op, iv, v) {
                                    result.push((alt.package_num, iv));
                                }
                            },
                            None => {},
                        }
                    },
                    None => {},
                }
            }
        }
        // collected back to front: put them in declared order
        let mut ordered: Vec<(usize, &'a DebianVersionNum)> = Vec::new();
        let mut j: usize = result.len();
        while j > 0
            invariant
                j <= result@.len(),
                result@.len() == self.wrong_versions(dd@).len(),
                ordered@.len() == result@.len() - j,
                forall|m: int| 0 <= m < result@.len() ==> (#[trigger] result@[m]).0
                    == self.wrong_versions(dd@)[result@.len() - 1 - m] && self.installed_at(
                    result@[m].0,
                ) == Some(*result@[m].1),
                forall|m: int| 0 <= m < ordered@.len() ==> #[trigger] ordered@[m] == result@[result@.len() - 1 - m],
            decreases j,
        {
            j = j - 1;
            ordered.push(result[j]);
        }
        ordered
    }
}

pub proof fn lemma_first_satisfied_is_satisfied(p: &Packages, dd: Seq<RelVersionedPackageNum>, i: int)
    requires
        0 <= i,
    ensures
        p.first_satisfied_from(dd, i) matches Some(k) ==> i <= k < dd.len() && p.alt_satisfied(dd[k]),
    decreases dd.len() - i,
{
    if i < dd.len() && !p.alt_satisfied(dd[i]) {
        lemma_first_satisfied_is_satisfied(p, dd, i + 1);
    }
}


/// When no alternative carries a version constraint, a dependency is
/// satisfied exactly when one of its alternatives' packages is installed.
pub proof fn lemma_unconstrained_satisfied_iff_installed(p: &Packages, dd: Seq<RelVersionedPackageNum>)
    requires
        forall|i: int| 0 <= i < dd.len() ==> (#[trigger] dd[i]).rel_version is None,
    ensures
        p.first_satisfied(dd) is Some <==> exists|i: int|
            0 <= i < dd.len() && (#[trigger] p.installed_at(dd[i].package_num)) is Some,
{
    lemma_unconstrained_from(p, dd, 0);
}

proof fn lemma_unconstrained_from(p: &Packages, dd: Seq<RelVersionedPackageNum>, i: int)
    requires
        0 <= i <= dd.len(),
        forall|m: int| 0 <= m < dd.len() ==> (#[trigger] dd[m]).rel_version is None,
    ensures
        p.first_satisfied_from(dd, i) is Some <==> exists|m: int|
            i <= m < dd.len() && (#[trigger] p.installed_at(dd[m].package_num)) is Some,
    decreases dd.len() - i,
{
    if i < dd.len() {
        lemma_unconstrained_from(p, dd, i + 1);
        if p.installed_at(dd[i].package_num) is Some {
            assert(p.alt_satisfied(dd[i]));
        }
        if exists|m: int| i <= m < dd.len() && (#[trigger] p.installed_at(dd[m].package_num)) is Some {
            let m = choose|m: int| i <= m < dd.len() && (#[trigger] p.installed_at(dd[m].package_num)) is Some;
            if m > i {
                assert(exists|m2: int|
                    i + 1 <= m2 < dd.len() && (#[trigger] p.installed_at(dd[m2].package_num)) is Some);
            }
        }
    }
}

/// The alternative that is satisfied and has no satisfied alternative before
/// it is the one chosen: never a later one.
pub proof fn lemma_first_satisfying_alternative_chosen(p: &Packages, dd: Seq<RelVersionedPackageNum>, k: int)
    requires
        0 <= k < dd.len(),
        p.alt_satisfied(dd[k]),
        forall|j: int| 0 <= j < k ==> !p.alt_satisfied(#[trigger] dd[j]),
    ensures
        p.first_satisfied(dd) == Some(k),
{
    lemma_chosen_from(p, dd, k, 0);
}

proof fn lemma_chosen_from(p: &Packages, dd: Seq<RelVersionedPackageNum>, k: int, i: int)
    requires
        0 <= i <= k < dd.len(),
        p.alt_satisfied(dd[k]),
        forall|j: int| 0 <= j < k ==> !p.alt_satisfied(#[trigger] dd[j]),
    ensures
        p.first_satisfied_from(dd, i) == Some(k),
    decreases k - i,
{
    if i < k {
        assert(!p.alt_satisfied(dd[i]));
        lemma_chosen_from(p, dd, k, i + 1);
    }
}

} // verus!
