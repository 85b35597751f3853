//! The package catalog: names interned to numbers, installed and available
//! versions, checksums and dependencies.
use vstd::prelude::*;
use vstd::hash_map::StringHashMap;
use crate::debversion::{DebianVersionNum, VersionRelation, VersionError, parse_version, version_valid, version_parts};
use crate::async_fns::AsyncState;

verus! {

/// One alternative of a dependency: a package, optionally with a version constraint.
pub struct RelVersionedPackageNum {
    pub package_num: usize,
    pub rel_version: Option<(VersionRelation, DebianVersionNum)>,
}

/// A dependency is an OR-group of alternatives, in declared order.
pub type Dependency = Vec<RelVersionedPackageNum>;

pub struct Packages {
    /// Name of each package number.
    pub package_names: Vec<String>,
    /// Number of each package name.
    pub package_nums: StringHashMap<usize>,
    pub installed_debvers: Vec<Option<DebianVersionNum>>,
    pub available_debvers: Vec<Option<DebianVersionNum>>,
    pub md5sums: Vec<Option<String>>,
    /// The dependencies of each package, if they were recorded.
    pub dependencies: Vec<Option<Vec<Dependency>>>,
    pub async_state: AsyncState,
}

/// Every package number in `deps` is below `n`.
pub open spec fn deps_in_range(deps: Seq<Dependency>, n: nat) -> bool {
    forall|i: int, j: int|
        0 <= i < deps.len() && 0 <= j < deps[i]@.len() ==> (#[trigger] deps[i]@[j]).package_num < n
}

impl Packages {
    pub open spec fn num_packages(&self) -> nat {
        self.package_names@.len()
    }

    /// The tables agree in size, the name table is a bijection between names
    /// and numbers, and dependencies only name known packages.
    pub open spec fn wf(&self) -> bool {
        let n = self.num_packages();
        &&& self.installed_debvers@.len() == n
        &&& self.available_debvers@.len() == n
        &&& self.md5sums@.len() == n
        &&& self.dependencies@.len() == n
        &&& forall|k: Seq<char>| #[trigger]
            self.package_nums@.contains_key(k) ==> self.package_nums@[k] < n
                && self.package_names@[self.package_nums@[k] as int]@ == k
        &&& forall|i: int| 0 <= i < n ==> #[trigger] self.package_nums@.contains_key(
            self.package_names@[i]@,
        ) && self.package_nums@[self.package_names@[i]@] == i
        &&& forall|i: int| 0 <= i < n ==> match #[trigger] self.dependencies@[i] {
            Some(d) => deps_in_range(d@, n),
            None => true,
        }
        &&& self.async_state.wf(n)
    }

    pub open spec fn knows(&self, name: Seq<char>) -> bool {
        self.package_nums@.contains_key(name)
    }

    pub open spec fn num_of(&self, name: Seq<char>) -> usize {
        self.package_nums@[name]
    }

    /// The dependencies of package `p`, empty when none were recorded.
    pub open spec fn deps_of(&self, p: int) -> Seq<Dependency> {
        match self.dependencies@[p] {
            Some(d) => d@,
            None => Seq::empty(),
        }
    }

    /// `new` extends `self` by interning names only: what was there stays.
    pub open spec fn extends(&self, new: &Packages) -> bool {
        &&& new.num_packages() >= self.num_packages()
        &&& forall|i: int| 0 <= i < self.num_packages() ==> new.package_names@[i]@ == #[trigger] self.package_names@[i]@
        &&& forall|k: Seq<char>| #[trigger] self.package_nums@.contains_key(k) ==> new.package_nums@.contains_key(k)
            && new.package_nums@[k] == self.package_nums@[k]
    }

    /// An empty catalog.
    pub fn new() -> (r: Packages)
        ensures
            r.wf(),
            r.num_packages() == 0,
            r.async_state.pending@.len() == 0,
    {
        Packages {
            package_names: Vec::new(),
            package_nums: StringHashMap::new(),
            installed_debvers: Vec::new(),
            available_debvers: Vec::new(),
            md5sums: Vec::new(),
            dependencies: Vec::new(),
            async_state: AsyncState::new(),
        }
    }

    pub fn package_exists(&self, package_name: &str) -> (r: bool)
        ensures
            r == self.knows(package_name@),
    {
        self.package_nums.contains_key(package_name)
    }

    /// The number of a known package.
    pub fn get_package_num(&self, package_name: &str) -> (r: Option<usize>)
        requires
            self.wf(),
        ensures
            match r {
                Some(p) => self.knows(package_name@) && p == self.num_of(package_name@) && p
                    < self.num_packages(),
                None => !self.knows(package_name@),
            },
    {
        match self.package_nums.get(package_name) {
            Some(p) => Some(*p),
            None => None,
        }
    }

    pub fn get_package_name(&self, package_num: usize) -> (r: &String)
        requires
            package_num < self.num_packages(),
        ensures
            r@ == self.package_names@[package_num as int]@,
    {
        &self.package_names[package_num]
    }

    /// The number of `package_name`, allocating the next one if the name is new.
    pub fn get_package_num_inserting(&mut self, package_name: &str) -> (r: usize)
        requires
            old(self).wf(),
            old(self).num_packages() < usize::MAX,
        ensures
            final(self).wf(),
            old(self).extends(&*final(self)),
            final(self).knows(package_name@),
            r == final(self).num_of(package_name@),
            r < final(self).num_packages(),
            old(self).knows(package_name@) ==> *final(self) == *old(self),
            !old(self).knows(package_name@) ==> {
                &&& r == old(self).num_packages()
                &&& final(self).num_packages() == old(self).num_packages() + 1
                &&& final(self).installed_debvers@ == old(self).installed_debvers@.push(None)
                &&& final(self).available_debvers@ == old(self).available_debvers@.push(None)
                &&& final(self).md5sums@ == old(self).md5sums@.push(None)
                &&& final(self).dependencies@ == old(self).dependencies@.push(None)
                &&& final(self).async_state == old(self).async_state
            },
    {
        match self.package_nums.get(package_name) {
            Some(p) => {
                return *p;
            },
            None => {},
        }
        let p = self.package_names.len();
        let ghost n = p as nat;
        self.package_names.push(String::from_str(package_name));
        self.package_nums.insert(String::from_str(package_name), p);
        self.installed_debvers.push(None);
        self.available_debvers.push(None);
        self.md5sums.push(None);
        self.dependencies.push(None);
        proof {
            assert forall|i: int| 0 <= i < n + 1 implies match #[trigger] self.dependencies@[i] {
                Some(d) => deps_in_range(d@, n + 1),
                None => true,
            } by {
                if i < n {
                    assert(old(self).dependencies@[i] == self.dependencies@[i]);
                }
            }
            assert forall|i: int| 0 <= i < n + 1 implies #[trigger] self.package_nums@.contains_key(
                self.package_names@[i]@,
            ) && self.package_nums@[self.package_names@[i]@] == i by {
                if i < n {
                    assert(old(self).package_names@[i] == self.package_names@[i]);
                }
            }
        }
        p
    }

    /// Records the installed version of `package_name`.
    pub fn record_installed(&mut self, package_name: &str, version: &str) -> (r: Result<(), VersionError>)
        requires
            old(self).wf(),
            old(self).num_packages() < usize::MAX,
        ensures
            final(self).wf(),
            old(self).extends(&*final(self)),
            r is Ok <==> version_valid(version@),
            r is Err ==> *final(self) == *old(self),
            r is Ok ==> {
                let p = final(self).num_of(package_name@);
                &&& final(self).knows(package_name@)
                &&& final(self).installed_debvers@[p as int] matches Some(v) && v.parts() == version_parts(version@)
                    && v.text@ == version@
            },
    {
        let v = match parse_version(version) {
            Ok(v) => v,
            Err(e) => {
                return Err(e);
            },
        };
        let p = self.get_package_num_inserting(package_name);
        self.installed_debvers.set(p, Some(v));
        Ok(())
    }

    /// Records the version of `package_name` that the index offers.
    pub fn record_available(&mut self, package_name: &str, version: &str) -> (r: Result<(), VersionError>)
        requires
            old(self).wf(),
            old(self).num_packages() < usize::MAX,
        ensures
            final(self).wf(),
            old(self).extends(&*final(self)),
            r is Ok <==> version_valid(version@),
            r is Err ==> *final(self) == *old(self),
            r is Ok ==> {
                let p = final(self).num_of(package_name@);
                &&& final(self).knows(package_name@)
                &&& final(self).available_debvers@[p as int] matches Some(v) && v.parts() == version_parts(version@)
                    && v.text@ == version@
            },
    {
        let v = match parse_version(version) {
            Ok(v) => v,
            Err(e) => {
                return Err(e);
            },
        };
        let p = self.get_package_num_inserting(package_name);
        self.available_debvers.set(p, Some(v));
        Ok(())
    }

    /// Records the expected checksum of `package_name`.
    pub fn record_checksum(&mut self, package_name: &str, checksum: &str)
        requires
            old(self).wf(),
            old(self).num_packages() < usize::MAX,
        ensures
            final(self).wf(),
            old(self).extends(&*final(self)),
            final(self).knows(package_name@),
            final(self).md5sums@[final(self).num_of(package_name@) as int] matches Some(c) && c@ == checksum@,
    {
        let p = self.get_package_num_inserting(package_name);
        let ghost before = *self;
        self.md5sums.set(p, Some(String::from_str(checksum)));
        proof {
            assert forall|i: int| 0 <= i < self.num_packages() implies match #[trigger] self.dependencies@[i] {
                Some(d) => deps_in_range(d@, self.num_packages()),
                None => true,
            } by {
                assert(before.dependencies@[i] == self.dependencies@[i]);
            }
        }
    }

    /// Records the dependencies of `package_name`: each inner list is an
    /// OR-group of (name, optional (relation, version)).
    pub fn record_dependencies(
        &mut self,
        package_name: &str,
        deps: &Vec<Vec<(String, Option<(VersionRelation, String)>)>>,
    ) -> (r: Result<(), VersionError>)
        requires
            old(self).wf(),
            old(self).num_packages() + 1 + total_alternatives(deps@) < usize::MAX,
        ensures
            final(self).wf(),
            old(self).extends(&*final(self)),
            r is Ok ==> {
                let p = final(self).num_of(package_name@);
                &&& final(self).knows(package_name@)
                &&& final(self).dependencies@[p as int] is Some
                &&& final(self).deps_of(p as int).len() == deps@.len()
                &&& forall|i: int| 0 <= i < deps@.len() ==> group_matches(
                    *final(self),
                    #[trigger] final(self).deps_of(p as int)[i],
                    deps@[i],
                )
            },
            r is Err <==> exists|i: int, j: int|
                0 <= i < deps@.len() && 0 <= j < deps@[i]@.len() && !written_valid(#[trigger] deps@[i]@[j]),
    {
        let mut out: Vec<Dependency> = Vec::new();
        let mut i: usize = 0;
        assert(deps@.skip(0) =~= deps@);
        while i < deps.len()
            invariant
                self.wf(),
                old(self).extends(&*self),
                0 <= i <= deps@.len(),
                out@.len() == i,
                self.num_packages() + total_alternatives(deps@.skip(i as int)) <= old(self).num_packages()
                    + total_alternatives(deps@),
                old(self).num_packages() + 1 + total_alternatives(deps@) < usize::MAX,
                deps_in_range(out@, self.num_packages()),
                forall|a: int| 0 <= a < i ==> group_matches(*self, #[trigger] out@[a], deps@[a]),
                forall|a: int, b: int|
                    0 <= a < i && 0 <= b < deps@[a]@.len() ==> written_valid(#[trigger] deps@[a]@[b]),
            decreases deps@.len() - i,
        {
            let group = &deps[i];
            let mut alts: Dependency = Vec::new();
            let mut j: usize = 0;
            proof {
                lemma_total_skip(deps@, i as int);
            }
            while j < group.len()
                invariant
                    self.wf(),
                    old(self).extends(&*self),
                    0 <= i < deps@.len(),
                    group == deps@[i as int],
                    0 <= j <= group@.len(),
                    alts@.len() == j,
                    out@.len() == i,
                    self.num_packages() + (group@.len() - j) + total_alternatives(deps@.skip(i + 1))
                        <= old(self).num_packages() + total_alternatives(deps@),
                    old(self).num_packages() + 1 + total_alternatives(deps@) < usize::MAX,
                    deps_in_range(out@, self.num_packages()),
                    forall|b: int| 0 <= b < j ==> (#[trigger] alts@[b]).package_num < self.num_packages(),
                    forall|a: int| 0 <= a < i ==> group_matches(*self, #[trigger] out@[a], deps@[a]),
                    forall|b: int| 0 <= b < j ==> alternative_matches(*self, #[trigger] alts@[b], group@[b]),
                    forall|a: int, b: int|
                        0 <= a < i && 0 <= b < deps@[a]@.len() ==> written_valid(#[trigger] deps@[a]@[b]),
                    forall|b: int| 0 <= b < j ==> written_valid(#[trigger] group@[b]),
                decreases group@.len() - j,
            {
                let (name, rv) = &group[j];
                let rel_version = match rv {
                    Some((op, vs)) => match parse_version(vs.as_str()) {
                        Ok(v) => Some((*op, v)),
                        Err(e) => {
                            assert(!written_valid(deps@[i as int]@[j as int]));
                            return Err(e);
                        },
                    },
                    None => None,
                };
                let ghost before = *self;
                let package_num = self.get_package_num_inserting(name.as_str());
                proof {
                    assert forall|a: int| 0 <= a < i implies group_matches(*self, #[trigger] out@[a], deps@[a]) by {
                        lemma_group_matches_extends(before, *self, out@[a], deps@[a]);
                    }
                    assert forall|b: int| 0 <= b < j implies alternative_matches(*self, #[trigger] alts@[b], group@[b]) by {
                        lemma_matches_extends(before, *self, alts@[b], group@[b]);
                    }
                }
                alts.push(RelVersionedPackageNum { package_num, rel_version });
                j = j + 1;
            }
            let ghost prev = out@;
            out.push(alts);
            proof {
                assert forall|a: int| 0 <= a < i + 1 implies group_matches(*self, #[trigger] out@[a], deps@[a]) by {
                    if a < i {
                        assert(out@[a] == prev[a]);
                    }
                }
                assert forall|a: int, b: int| 0 <= a < out@.len() && 0 <= b < out@[a]@.len() implies (
                #[trigger] out@[a]@[b]).package_num < self.num_packages() by {
                    if a < i {
                        assert(out@[a] == prev[a]);
                    }
                }
            }
            i = i + 1;
        }
        let ghost before = *self;
        let p = self.get_package_num_inserting(package_name);
        let ghost mid = *self;
        self.dependencies.set(p, Some(out));
        proof {
            assert forall|a: int| 0 <= a < deps@.len() implies group_matches(*self, #[trigger] self.deps_of(p as int)[a], deps@[a]) by {
                lemma_group_matches_extends(before, *self, out@[a], deps@[a]);
            }
            assert forall|a: int, b: int| 0 <= a < out@.len() && 0 <= b < out@[a]@.len() implies (
            #[trigger] out@[a]@[b]).package_num < self.num_packages() by {
                assert(out@[a]@[b].package_num < before.num_packages());
            }
            assert forall|k: int| 0 <= k < self.num_packages() implies match #[trigger] self.dependencies@[k] {
                Some(d) => deps_in_range(d@, self.num_packages()),
                None => true,
            } by {
                if k != p {
                    assert(mid.dependencies@[k] == self.dependencies@[k]);
                }
            }
        }
        Ok(())
    }
}

/// Each stored alternative of `g` is the written alternative at the same place in `w`.
pub open spec fn group_matches(p: Packages, g: Dependency, w: Vec<(String, Option<(VersionRelation, String)>)>) -> bool {
    &&& g@.len() == w@.len()
    &&& forall|b: int| 0 <= b < w@.len() ==> alternative_matches(p, #[trigger] g@[b], w@[b])
}

pub proof fn lemma_matches_extends(
    p: Packages,
    q: Packages,
    a: RelVersionedPackageNum,
    w: (String, Option<(VersionRelation, String)>),
)
    requires
        p.extends(&q),
        alternative_matches(p, a, w),
    ensures
        alternative_matches(q, a, w),
{
}

pub proof fn lemma_group_matches_extends(
    p: Packages,
    q: Packages,
    g: Dependency,
    w: Vec<(String, Option<(VersionRelation, String)>)>,
)
    requires
        p.extends(&q),
        group_matches(p, g, w),
    ensures
        group_matches(q, g, w),
{
    assert forall|b: int| 0 <= b < w@.len() implies alternative_matches(q, #[trigger] g@[b], w@[b]) by {
        lemma_matches_extends(p, q, g@[b], w@[b]);
    }
}

/// Number of alternatives over all groups.
pub open spec fn total_alternatives(deps: Seq<Vec<(String, Option<(VersionRelation, String)>)>>) -> nat
    decreases deps.len(),
{
    if deps.len() == 0 {
        0
    } else {
        deps[0]@.len() + total_alternatives(deps.skip(1))
    }
}

pub proof fn lemma_total_skip(deps: Seq<Vec<(String, Option<(VersionRelation, String)>)>>, i: int)
    requires
        0 <= i < deps.len(),
    ensures
        total_alternatives(deps.skip(i)) == deps[i]@.len() + total_alternatives(deps.skip(i + 1)),
{
    assert(deps.skip(i).skip(1) =~= deps.skip(i + 1));
}

/// The version written in `w`, if any, is well formed.
pub open spec fn written_valid(w: (String, Option<(VersionRelation, String)>)) -> bool {
    match w.1 {
        Some(rv) => version_valid(rv.1@),
        None => true,
    }
}

/// The stored alternative `a` is the written alternative `w`, read against catalog `p`.
pub open spec fn alternative_matches(
    p: Packages,
    a: RelVersionedPackageNum,
    w: (String, Option<(VersionRelation, String)>),
) -> bool {
    &&& p.knows(w.0@)
    &&& a.package_num == p.num_of(w.0@)
    &&& match (a.rel_version, w.1) {
        (None, None) => true,
        (Some((op, v)), Some((wop, ws))) => op == wop && v.parts() == version_parts(ws@) && v.text@ == ws@,
        _ => false,
    }
}

} // verus!
