//! The last stage of the analysis: the findings are sorted into direct and
//! transitive ones and gathered by missing library, by broken package and by
//! the provider of each library.

use vstd::prelude::*;
use crate::text::{views, copy_bytes};
use crate::table::{distinct, table, members, value_or, position_of, lemma_table_push, lemma_table_update, lemma_members_push, NameSet};
use crate::stages::MissingDep;

verus! {

/// One finding as the aggregation sees it: a package, one of its artifacts, a
/// soname that the artifact lacks, the providers of the soname, and whether
/// the artifact needs the soname directly.
pub struct Finding {
    pub package: Seq<u8>,
    pub file: Seq<u8>,
    pub soname: Seq<u8>,
    pub providers: Seq<Seq<u8>>,
    pub direct: bool,
}

/// The views that the aggregation builds.
pub struct Maps {
    /// For each missing soname, the packages that need it directly, each with
    /// its artifacts that do, in the order in which they were found.
    pub lib_map: Map<Seq<u8>, Map<Seq<u8>, Seq<Seq<u8>>>>,
    /// For each package with a direct miss, the sonames that it misses.
    pub pac_map: Map<Seq<u8>, Set<Seq<u8>>>,
    /// For each soname with a known provider list, the first provider of the
    /// finding that came last.
    pub pac_source_map: Map<Seq<u8>, Seq<u8>>,
    /// The packages with a miss that is not direct.
    pub candidates: Set<Seq<u8>>,
}

/// The views before any finding.
pub open spec fn no_findings() -> Maps {
    Maps {
        lib_map: Map::empty(),
        pac_map: Map::empty(),
        pac_source_map: Map::empty(),
        candidates: Set::empty(),
    }
}

/// The entry of `soname` in the library view after one more direct finding.
pub open spec fn with_user(
    lib_map: Map<Seq<u8>, Map<Seq<u8>, Seq<Seq<u8>>>>,
    soname: Seq<u8>,
    package: Seq<u8>,
    file: Seq<u8>,
) -> Map<Seq<u8>, Seq<Seq<u8>>> {
    let users = value_or(lib_map, soname, Map::empty());
    users.insert(package, value_or(users, package, Seq::empty()).push(file))
}

/// The views after one more finding.
pub open spec fn step(m: Maps, f: Finding) -> Maps {
    Maps {
        lib_map: if f.direct {
            m.lib_map.insert(f.soname, with_user(m.lib_map, f.soname, f.package, f.file))
        } else {
            m.lib_map
        },
        pac_map: if f.direct {
            m.pac_map.insert(f.package, value_or(m.pac_map, f.package, Set::empty()).insert(f.soname))
        } else {
            m.pac_map
        },
        pac_source_map: if f.providers.len() > 0 {
            m.pac_source_map.insert(f.soname, f.providers[0])
        } else {
            m.pac_source_map
        },
        candidates: if f.direct {
            m.candidates
        } else {
            m.candidates.insert(f.package)
        },
    }
}

/// The views after a sequence of findings.
pub open spec fn run(fs: Seq<Finding>) -> Maps
    decreases fs.len(),
{
    if fs.len() == 0 {
        no_findings()
    } else {
        step(run(fs.drop_last()), fs.last())
    }
}

/// The packages that are broken only transitively: those with a miss that is
/// not direct, and without a direct one.
pub open spec fn transitive_set(m: Maps) -> Set<Seq<u8>> {
    m.candidates.difference(m.pac_map.dom())
}

/// The names that are not in `dom`, in order.
pub open spec fn names_outside(names: Seq<Seq<u8>>, dom: Set<Seq<u8>>) -> Seq<Seq<u8>>
    decreases names.len(),
{
    if names.len() == 0 {
        Seq::empty()
    } else {
        let before = names_outside(names.drop_last(), dom);
        if dom.contains(names.last()) {
            before
        } else {
            before.push(names.last())
        }
    }
}

/// The finding that a missing dependency stands for, once it is known whether
/// it is direct.
pub open spec fn finding_of(dep: MissingDep, direct: bool) -> Finding {
    Finding {
        package: dep.package@,
        file: dep.exec_filepath@,
        soname: dep.soname@,
        providers: views(dep.providers@),
        direct,
    }
}

/// The views of a sequence of file lists.
pub open spec fn file_views(fs: Seq<Vec<Vec<u8>>>) -> Seq<Seq<Seq<u8>>> {
    fs.map_values(|f: Vec<Vec<u8>>| views(f@))
}

/// The packages that need one library, each with its artifacts that do.
#[derive(Debug)]
pub struct Users {
    packages: Vec<Vec<u8>>,
    files: Vec<Vec<Vec<u8>>>,
}

impl Users {
    /// Each package is held once, with at least one artifact.
    pub closed spec fn wf(&self) -> bool {
        &&& self.packages@.len() == self.files@.len()
        &&& distinct(views(self.packages@))
        &&& forall|i: int| 0 <= i < self.files@.len() ==> (#[trigger] self.files@[i])@.len() > 0
    }

    /// The packages, in the order in which they came.
    pub closed spec fn listed(&self) -> Seq<Seq<u8>> {
        views(self.packages@)
    }

    /// The artifacts of each package.
    pub closed spec fn view(&self) -> Map<Seq<u8>, Seq<Seq<u8>>> {
        table(views(self.packages@), file_views(self.files@))
    }

    /// The list holds each package of the map once.
    pub proof fn lemma_listed(&self)
        requires
            self.wf(),
        ensures
            distinct(self.listed()),
            members(self.listed()) == self@.dom(),
    {
        assert(members(self.listed()) =~= self@.dom());
    }

    /// No package.
    pub fn new() -> (r: Users)
        ensures
            r.wf(),
            r@ == Map::<Seq<u8>, Seq<Seq<u8>>>::empty(),
            r.listed() == Seq::<Seq<u8>>::empty(),
    {
        let r = Users { packages: Vec::new(), files: Vec::new() };
        proof {
            assert(r@ =~= Map::<Seq<u8>, Seq<Seq<u8>>>::empty());
            assert(r.listed() =~= Seq::<Seq<u8>>::empty());
        }
        r
    }

    /// Adds an artifact of `package`.
    pub fn add(&mut self, package: &[u8], file: &[u8])
        requires
            old(self).wf(),
        ensures
            final(self).wf(),
            final(self)@ == old(self)@.insert(
                package@,
                value_or(old(self)@, package@, Seq::empty()).push(file@),
            ),
            final(self).listed() == if old(self)@.dom().contains(package@) {
                old(self).listed()
            } else {
                old(self).listed().push(package@)
            },
    {
        let ghost keys = views(self.packages@);
        let ghost vals = file_views(self.files@);
        match position_of(&self.packages, package) {
            Some(i) => {
                let mut list = self.files.remove(i);
                let ghost old_list = list@;
                list.push(copy_bytes(file));
                self.files.insert(i, list);
                proof {
                    crate::table::lemma_position(keys, i as int);
                    lemma_table_update(keys, vals, i as int, views(old_list).push(file@));
                    assert(views(list@) =~= views(old_list).push(file@));
                    assert(file_views(self.files@) =~= vals.update(i as int, views(list@)));
                    assert(vals[i as int] == views(old_list));
                }
            },
            None => {
                let list: Vec<Vec<u8>> = vec![copy_bytes(file)];
                self.packages.push(copy_bytes(package));
                self.files.push(list);
                proof {
                    lemma_table_push(keys, vals, package@, views(list@));
                    assert(views(list@) =~= Seq::<Seq<u8>>::empty().push(file@));
                    assert(views(self.packages@) =~= keys.push(package@));
                    assert(file_views(self.files@) =~= vals.push(views(list@)));
                }
            },
        }
    }

    /// The number of packages.
    pub fn len(&self) -> (r: usize)
        ensures
            r == self.listed().len(),
    {
        self.packages.len()
    }

    /// The package at index `i` of the list.
    pub fn package(&self, i: usize) -> (r: &Vec<u8>)
        requires
            i < self.listed().len(),
        ensures
            r@ == self.listed()[i as int],
    {
        &self.packages[i]
    }

    /// The artifacts of `package`, in the order in which they were found; none
    /// where the package is not held.
    pub fn files_of(&self, package: &[u8]) -> (r: Vec<Vec<u8>>)
        requires
            self.wf(),
        ensures
            views(r@) == value_or(self@, package@, Seq::empty()),
    {
        let mut out: Vec<Vec<u8>> = Vec::new();
        match position_of(&self.packages, package) {
            Some(i) => {
                proof {
                    crate::table::lemma_position(views(self.packages@), i as int);
                }
                let list = &self.files[i];
                let mut j: usize = 0;
                while j < list.len()
                    invariant
                        j <= list@.len(),
                        views(out@) == views(list@).subrange(0, j as int),
                    decreases list@.len() - j,
                {
                    let ghost before = out@;
                    out.push(copy_bytes(list[j].as_slice()));
                    proof {
                        assert(views(list@).len() == list@.len());
                        assert(views(out@) =~= views(before).push(list@[j as int]@));
                        assert(views(before).push(list@[j as int]@) =~= views(list@).subrange(
                            0,
                            j + 1,
                        ));
                    }
                    j += 1;
                }
                proof {
                    assert(views(list@).subrange(0, j as int) =~= views(list@));
                }
            },
            None => {
                proof {
                    assert(views(out@) =~= Seq::<Seq<u8>>::empty());
                }
            },
        }
        out
    }
}

/// For each missing library, the packages that need it directly.
#[derive(Debug)]
pub struct LibMap {
    sonames: Vec<Vec<u8>>,
    users: Vec<Users>,
}

/// The views of a sequence of user tables.
pub open spec fn user_views(us: Seq<Users>) -> Seq<Map<Seq<u8>, Seq<Seq<u8>>>> {
    us.map_values(|u: Users| u@)
}

impl LibMap {
    /// Each soname is held once, with the table of its users.
    pub closed spec fn wf(&self) -> bool {
        &&& self.sonames@.len() == self.users@.len()
        &&& distinct(views(self.sonames@))
        &&& forall|i: int| 0 <= i < self.users@.len() ==> (#[trigger] self.users@[i]).wf()
    }

    /// The sonames, in the order in which they came.
    pub closed spec fn listed(&self) -> Seq<Seq<u8>> {
        views(self.sonames@)
    }

    /// The user tables, in the order of the sonames.
    pub closed spec fn tables(&self) -> Seq<Users> {
        self.users@
    }

    /// The users of each soname.
    pub closed spec fn view(&self) -> Map<Seq<u8>, Map<Seq<u8>, Seq<Seq<u8>>>> {
        table(views(self.sonames@), user_views(self.users@))
    }

    /// The list holds each soname of the map once, and the tables are the
    /// map's values in the order of the list.
    pub proof fn lemma_listed(&self)
        requires
            self.wf(),
        ensures
            distinct(self.listed()),
            members(self.listed()) == self@.dom(),
            self.tables().len() == self.listed().len(),
            forall|i: int|
                0 <= i < self.listed().len() ==> (#[trigger] self.tables()[i]).wf()
                    && self.tables()[i]@ == self@[self.listed()[i]],
    {
        assert(members(self.listed()) =~= self@.dom());
        assert forall|i: int| 0 <= i < self.listed().len() implies (#[trigger] self.tables()[i]).wf()
            && self.tables()[i]@ == self@[self.listed()[i]] by {
            crate::table::lemma_position(self.listed(), i);
        }
    }

    /// No soname.
    pub fn new() -> (r: LibMap)
        ensures
            r.wf(),
            r@ == Map::<Seq<u8>, Map<Seq<u8>, Seq<Seq<u8>>>>::empty(),
            r.listed() == Seq::<Seq<u8>>::empty(),
            r.tables() == Seq::<Users>::empty(),
    {
        let r = LibMap { sonames: Vec::new(), users: Vec::new() };
        proof {
            assert(r@ =~= Map::<Seq<u8>, Map<Seq<u8>, Seq<Seq<u8>>>>::empty());
            assert(r.listed() =~= Seq::<Seq<u8>>::empty());
            assert(r.tables() =~= Seq::<Users>::empty());
        }
        r
    }

    /// Records that the artifact `file` of `package` needs `soname` directly.
    pub fn add(&mut self, soname: &[u8], package: &[u8], file: &[u8])
        requires
            old(self).wf(),
        ensures
            final(self).wf(),
            final(self)@ == old(self)@.insert(soname@, with_user(old(self)@, soname@, package@, file@)),
            final(self).listed() == if old(self)@.dom().contains(soname@) {
                old(self).listed()
            } else {
                old(self).listed().push(soname@)
            },
    {
        let ghost keys = views(self.sonames@);
        let ghost vals = user_views(self.users@);
        let ghost old_users = self.users@;
        match position_of(&self.sonames, soname) {
            Some(i) => {
                let mut u = self.users.remove(i);
                let ghost old_u = u;
                u.add(package, file);
                let ghost new_u = u;
                self.users.insert(i, u);
                proof {
                    crate::table::lemma_position(keys, i as int);
                    assert(old_u == old_users[i as int]);
                    assert(vals[i as int] == old_u@);
                    lemma_table_update(keys, vals, i as int, new_u@);
                    assert(user_views(self.users@) =~= vals.update(i as int, new_u@));
                    assert forall|j: int| 0 <= j < self.users@.len() implies (
                    #[trigger] self.users@[j]).wf() by {
                        if j != i {
                            assert(self.users@[j] == old_users[j]);
                        }
                    }
                }
            },
            None => {
                let mut u = Users::new();
                u.add(package, file);
                let ghost new_u = u;
                self.sonames.push(copy_bytes(soname));
                self.users.push(u);
                proof {
                    lemma_table_push(keys, vals, soname@, new_u@);
                    assert(views(self.sonames@) =~= keys.push(soname@));
                    assert(user_views(self.users@) =~= vals.push(new_u@));
                    assert forall|j: int| 0 <= j < self.users@.len() implies (
                    #[trigger] self.users@[j]).wf() by {
                        if j < old_users.len() {
                            assert(self.users@[j] == old_users[j]);
                        }
                    }
                }
            },
        }
    }

    /// The number of sonames.
    pub fn len(&self) -> (r: usize)
        requires
            self.wf(),
        ensures
            r == self.listed().len(),
            r == self.tables().len(),
    {
        self.sonames.len()
    }

    /// The soname at index `i` of the list.
    pub fn soname(&self, i: usize) -> (r: &Vec<u8>)
        requires
            i < self.listed().len(),
        ensures
            r@ == self.listed()[i as int],
    {
        &self.sonames[i]
    }

    /// The users of the soname at index `i` of the list.
    pub fn users(&self, i: usize) -> (r: &Users)
        requires
            i < self.tables().len(),
        ensures
            *r == self.tables()[i as int],
    {
        &self.users[i]
    }

    /// The artifacts of `package` that need `soname` directly, in the order in
    /// which they were found; none where nothing of the kind was recorded.
    pub fn files_of(&self, soname: &[u8], package: &[u8]) -> (r: Vec<Vec<u8>>)
        requires
            self.wf(),
        ensures
            views(r@) == value_or(value_or(self@, soname@, Map::empty()), package@, Seq::empty()),
    {
        match position_of(&self.sonames, soname) {
            Some(i) => {
                proof {
                    crate::table::lemma_position(views(self.sonames@), i as int);
                }
                self.users[i].files_of(package)
            },
            None => {
                let out: Vec<Vec<u8>> = Vec::new();
                proof {
                    assert(views(out@) =~= Seq::<Seq<u8>>::empty());
                }
                out
            },
        }
    }
}

/// For each package with a direct miss, the sonames that it misses.
#[derive(Debug)]
pub struct PacMap {
    packages: Vec<Vec<u8>>,
    misses: Vec<NameSet>,
}

/// The views of a sequence of name sets.
pub open spec fn set_views(ss: Seq<NameSet>) -> Seq<Set<Seq<u8>>> {
    ss.map_values(|s: NameSet| s@)
}

impl PacMap {
    /// Each package is held once, with the set of its misses.
    pub closed spec fn wf(&self) -> bool {
        &&& self.packages@.len() == self.misses@.len()
        &&& distinct(views(self.packages@))
        &&& forall|i: int| 0 <= i < self.misses@.len() ==> (#[trigger] self.misses@[i]).wf()
    }

    /// The packages, in the order in which they came.
    pub closed spec fn listed(&self) -> Seq<Seq<u8>> {
        views(self.packages@)
    }

    /// The sets of misses, in the order of the packages.
    pub closed spec fn sets(&self) -> Seq<NameSet> {
        self.misses@
    }

    /// The misses of each package.
    pub closed spec fn view(&self) -> Map<Seq<u8>, Set<Seq<u8>>> {
        table(views(self.packages@), set_views(self.misses@))
    }

    /// The list holds each package of the map once, and the sets are the
    /// map's values in the order of the list.
    pub proof fn lemma_listed(&self)
        requires
            self.wf(),
        ensures
            distinct(self.listed()),
            members(self.listed()) == self@.dom(),
            self.sets().len() == self.listed().len(),
            forall|i: int|
                0 <= i < self.listed().len() ==> (#[trigger] self.sets()[i]).wf() && self.sets()[i]@
                    == self@[self.listed()[i]],
    {
        assert(members(self.listed()) =~= self@.dom());
        assert forall|i: int| 0 <= i < self.listed().len() implies (#[trigger] self.sets()[i]).wf()
            && self.sets()[i]@ == self@[self.listed()[i]] by {
            crate::table::lemma_position(self.listed(), i);
        }
    }

    /// No package.
    pub fn new() -> (r: PacMap)
        ensures
            r.wf(),
            r@ == Map::<Seq<u8>, Set<Seq<u8>>>::empty(),
            r.listed() == Seq::<Seq<u8>>::empty(),
            r.sets() == Seq::<NameSet>::empty(),
    {
        let r = PacMap { packages: Vec::new(), misses: Vec::new() };
        proof {
            assert(r@ =~= Map::<Seq<u8>, Set<Seq<u8>>>::empty());
            assert(r.listed() =~= Seq::<Seq<u8>>::empty());
            assert(r.sets() =~= Seq::<NameSet>::empty());
        }
        r
    }

    /// Records that `package` misses `soname` directly.
    pub fn add(&mut self, package: &[u8], soname: &[u8])
        requires
            old(self).wf(),
        ensures
            final(self).wf(),
            final(self)@ == old(self)@.insert(
                package@,
                value_or(old(self)@, package@, Set::empty()).insert(soname@),
            ),
            final(self).listed() == if old(self)@.dom().contains(package@) {
                old(self).listed()
            } else {
                old(self).listed().push(package@)
            },
    {
        let ghost keys = views(self.packages@);
        let ghost vals = set_views(self.misses@);
        let ghost old_misses = self.misses@;
        match position_of(&self.packages, package) {
            Some(i) => {
                let mut s = self.misses.remove(i);
                let ghost old_s = s;
                s.insert(soname);
                let ghost new_s = s;
                self.misses.insert(i, s);
                proof {
                    crate::table::lemma_position(keys, i as int);
                    assert(old_s == old_misses[i as int]);
                    assert(vals[i as int] == old_s@);
                    lemma_table_update(keys, vals, i as int, new_s@);
                    assert(set_views(self.misses@) =~= vals.update(i as int, new_s@));
                    assert forall|j: int| 0 <= j < self.misses@.len() implies (
                    #[trigger] self.misses@[j]).wf() by {
                        if j != i {
                            assert(self.misses@[j] == old_misses[j]);
                        }
                    }
                }
            },
            None => {
                let mut s = NameSet::new();
                s.insert(soname);
                let ghost new_s = s;
                self.packages.push(copy_bytes(package));
                self.misses.push(s);
                proof {
                    lemma_table_push(keys, vals, package@, new_s@);
                    assert(views(self.packages@) =~= keys.push(package@));
                    assert(set_views(self.misses@) =~= vals.push(new_s@));
                    assert forall|j: int| 0 <= j < self.misses@.len() implies (
                    #[trigger] self.misses@[j]).wf() by {
                        if j < old_misses.len() {
                            assert(self.misses@[j] == old_misses[j]);
                        }
                    }
                }
            },
        }
    }

    /// Whether `package` has a direct miss.
    pub fn contains_key(&self, package: &[u8]) -> (r: bool)
        ensures
            r == self@.dom().contains(package@),
    {
        position_of(&self.packages, package).is_some()
    }

    /// Whether `package` misses `soname` directly.
    pub fn misses(&self, package: &[u8], soname: &[u8]) -> (r: bool)
        requires
            self.wf(),
        ensures
            r == (self@.dom().contains(package@) && self@[package@].contains(soname@)),
    {
        match position_of(&self.packages, package) {
            Some(i) => {
                proof {
                    crate::table::lemma_position(views(self.packages@), i as int);
                }
                self.misses[i].contains(soname)
            },
            None => false,
        }
    }

    /// The number of packages.
    pub fn len(&self) -> (r: usize)
        requires
            self.wf(),
        ensures
            r == self.listed().len(),
            r == self.sets().len(),
    {
        self.packages.len()
    }

    /// The package at index `i` of the list.
    pub fn package(&self, i: usize) -> (r: &Vec<u8>)
        requires
            i < self.listed().len(),
        ensures
            r@ == self.listed()[i as int],
    {
        &self.packages[i]
    }

    /// The misses of the package at index `i` of the list.
    pub fn misses_at(&self, i: usize) -> (r: &NameSet)
        requires
            i < self.sets().len(),
        ensures
            *r == self.sets()[i as int],
    {
        &self.misses[i]
    }
}

/// For each soname with a known provider list, one provider.
#[derive(Debug)]
pub struct PacSourceMap {
    sonames: Vec<Vec<u8>>,
    providers: Vec<Vec<u8>>,
}

impl PacSourceMap {
    /// Each soname is held once, with its provider.
    pub closed spec fn wf(&self) -> bool {
        &&& self.sonames@.len() == self.providers@.len()
        &&& distinct(views(self.sonames@))
    }

    /// The provider of each soname.
    pub closed spec fn view(&self) -> Map<Seq<u8>, Seq<u8>> {
        table(views(self.sonames@), views(self.providers@))
    }

    /// No soname.
    pub fn new() -> (r: PacSourceMap)
        ensures
            r.wf(),
            r@ == Map::<Seq<u8>, Seq<u8>>::empty(),
    {
        let r = PacSourceMap { sonames: Vec::new(), providers: Vec::new() };
        proof {
            assert(r@ =~= Map::<Seq<u8>, Seq<u8>>::empty());
        }
        r
    }

    /// Makes `provider` the provider of `soname`, in place of an earlier one.
    pub fn insert(&mut self, soname: &[u8], provider: &[u8])
        requires
            old(self).wf(),
        ensures
            final(self).wf(),
            final(self)@ == old(self)@.insert(soname@, provider@),
    {
        let ghost keys = views(self.sonames@);
        let ghost vals = views(self.providers@);
        match position_of(&self.sonames, soname) {
            Some(i) => {
                self.providers.set(i, copy_bytes(provider));
                proof {
                    lemma_table_update(keys, vals, i as int, provider@);
                    assert(views(self.providers@) =~= vals.update(i as int, provider@));
                }
            },
            None => {
                self.sonames.push(copy_bytes(soname));
                self.providers.push(copy_bytes(provider));
                proof {
                    lemma_table_push(keys, vals, soname@, provider@);
                    assert(views(self.sonames@) =~= keys.push(soname@));
                    assert(views(self.providers@) =~= vals.push(provider@));
                }
            },
        }
    }

    /// The provider of `soname`, if one is known.
    pub fn get(&self, soname: &[u8]) -> (r: Option<&Vec<u8>>)
        requires
            self.wf(),
        ensures
            match r {
                Some(p) => self@.dom().contains(soname@) && self@[soname@] == p@,
                None => !self@.dom().contains(soname@),
            },
    {
        match position_of(&self.sonames, soname) {
            Some(i) => {
                proof {
                    crate::table::lemma_position(views(self.sonames@), i as int);
                }
                Some(&self.providers[i])
            },
            None => None,
        }
    }
}

/// The state of the aggregation: the views built from the findings so far.
#[derive(Debug)]
pub struct Aggregation {
    pub lib_map: LibMap,
    pub pac_map: PacMap,
    pub pac_source_map: PacSourceMap,
    pub candidates: NameSet,
}

impl Aggregation {
    /// Each of the views is well formed.
    pub open spec fn wf(&self) -> bool {
        &&& self.lib_map.wf()
        &&& self.pac_map.wf()
        &&& self.pac_source_map.wf()
        &&& self.candidates.wf()
    }

    /// The views as maps and sets.
    pub open spec fn view(&self) -> Maps {
        Maps {
            lib_map: self.lib_map@,
            pac_map: self.pac_map@,
            pac_source_map: self.pac_source_map@,
            candidates: self.candidates@,
        }
    }

    /// The state before any finding.
    pub fn new() -> (r: Aggregation)
        ensures
            r.wf(),
            r@ == no_findings(),
            r.lib_map.listed() == Seq::<Seq<u8>>::empty(),
            r.pac_map.listed() == Seq::<Seq<u8>>::empty(),
            r.candidates.listed() == Seq::<Seq<u8>>::empty(),
    {
        Aggregation {
            lib_map: LibMap::new(),
            pac_map: PacMap::new(),
            pac_source_map: PacSourceMap::new(),
            candidates: NameSet::new(),
        }
    }

    /// Takes in one finding. A direct one enters the library view and the
    /// package view; another makes its package a candidate for the transitive
    /// set. The first of the finding's providers becomes the provider of its
    /// soname.
    pub fn record(&mut self, dep: &MissingDep, direct: bool)
        requires
            old(self).wf(),
        ensures
            final(self).wf(),
            final(self)@ == step(old(self)@, finding_of(*dep, direct)),
    {
        if direct {
            self.lib_map.add(
                dep.soname.as_slice(),
                dep.package.as_slice(),
                dep.exec_filepath.as_slice(),
            );
            self.pac_map.add(dep.package.as_slice(), dep.soname.as_slice());
        } else {
            self.candidates.insert(dep.package.as_slice());
        }
        if dep.providers.len() > 0 {
            proof {
                assert(views(dep.providers@).len() == dep.providers@.len());
                assert(views(dep.providers@)[0] == dep.providers@[0]@);
            }
            self.pac_source_map.insert(dep.soname.as_slice(), dep.providers[0].as_slice());
        } else {
            proof {
                assert(views(dep.providers@).len() == dep.providers@.len());
            }
        }
    }

    /// The packages that are broken only transitively: the candidates without
    /// a direct miss. None of them is a key of the package view.
    pub fn transitive(&self) -> (r: NameSet)
        requires
            self.wf(),
        ensures
            r.wf(),
            r@ == transitive_set(self@),
            r@.disjoint(self@.pac_map.dom()),
            r.listed() == names_outside(self.candidates.listed(), self@.pac_map.dom()),
    {
        let mut out = NameSet::new();
        let n = self.candidates.len();
        let ghost all = self.candidates.listed();
        let ghost dom = self.pac_map@.dom();
        let mut i: usize = 0;
        proof {
            self.candidates.lemma_listed();
            assert(all.subrange(0, 0) =~= Seq::<Seq<u8>>::empty());
            assert(members(all.subrange(0, 0)).difference(dom) =~= Set::<Seq<u8>>::empty());
        }
        while i < n
            invariant
                i <= n,
                n == all.len(),
                all == self.candidates.listed(),
                dom == self.pac_map@.dom(),
                out.wf(),
                distinct(all),
                out@ == members(all.subrange(0, i as int)).difference(dom),
                out.listed() == names_outside(all.subrange(0, i as int), dom),
            decreases n - i,
        {
            let name = self.candidates.get(i);
            proof {
                lemma_members_push(all.subrange(0, i as int), all[i as int]);
                assert(all.subrange(0, i + 1) =~= all.subrange(0, i as int).push(all[i as int]));
                assert(all.subrange(0, i + 1).drop_last() =~= all.subrange(0, i as int));
                if all.subrange(0, i as int).contains(all[i as int]) {
                    let k = choose|k: int|
                        0 <= k < i && all.subrange(0, i as int)[k] == all[i as int];
                    assert(all[k] == all[i as int]);
                }
            }
            if !self.pac_map.contains_key(name.as_slice()) {
                out.insert(name.as_slice());
                proof {
                    assert(out@ =~= members(all.subrange(0, i + 1)).difference(dom));
                }
            } else {
                proof {
                    assert(out@ =~= members(all.subrange(0, i + 1)).difference(dom));
                }
            }
            i += 1;
        }
        proof {
            assert(all.subrange(0, i as int) =~= all);
        }
        out
    }
}

/// A missing dependency with the answer whether it is direct.
#[derive(Debug)]
pub struct Classified {
    pub dep: MissingDep,
    pub direct: bool,
}

/// The findings that classified dependencies stand for.
pub open spec fn findings(deps: Seq<Classified>) -> Seq<Finding> {
    deps.map_values(|c: Classified| finding_of(c.dep, c.direct))
}

/// Takes in a sequence of classified dependencies, in order, and gives the
/// views of all of them.
pub fn aggregate(deps: &Vec<Classified>) -> (r: Aggregation)
    ensures
        r.wf(),
        r@ == run(findings(deps@)),
{
    let mut agg = Aggregation::new();
    let ghost all = findings(deps@);
    let mut i: usize = 0;
    proof {
        assert(all.subrange(0, 0) =~= Seq::<Finding>::empty());
    }
    while i < deps.len()
        invariant
            i <= deps@.len(),
            all == findings(deps@),
            agg.wf(),
            agg@ == run(all.subrange(0, i as int)),
        decreases deps@.len() - i,
    {
        proof {
            assert(all.subrange(0, i + 1).drop_last() =~= all.subrange(0, i as int));
        }
        agg.record(&deps[i].dep, deps[i].direct);
        i += 1;
    }
    proof {
        assert(all.subrange(0, i as int) =~= all);
    }
    agg
}

/// What was recorded stays: a later finding takes no soname from a package,
/// no package from the package view and no candidate away.
pub proof fn lemma_step_keeps(m: Maps, f: Finding, package: Seq<u8>, soname: Seq<u8>)
    ensures
        m.pac_map.dom().contains(package) ==> step(m, f).pac_map.dom().contains(package),
        m.pac_map.dom().contains(package) && m.pac_map[package].contains(soname) ==> step(
            m,
            f,
        ).pac_map[package].contains(soname),
        m.candidates.contains(package) ==> step(m, f).candidates.contains(package),
{
}

/// After any findings, each direct one is in the package view under its
/// package, and the package of each other one is a candidate.
pub proof fn lemma_findings_recorded(fs: Seq<Finding>, i: int)
    requires
        0 <= i < fs.len(),
    ensures
        fs[i].direct ==> run(fs).pac_map.dom().contains(fs[i].package) && run(
            fs,
        ).pac_map[fs[i].package].contains(fs[i].soname),
        !fs[i].direct ==> run(fs).candidates.contains(fs[i].package),
    decreases fs.len(),
{
    let front = fs.drop_last();
    if i < fs.len() - 1 {
        lemma_findings_recorded(front, i);
        assert(front[i] == fs[i]);
        lemma_step_keeps(run(front), fs.last(), fs[i].package, fs[i].soname);
    }
}

/// No package is both a key of the package view and in the transitive set.
pub proof fn lemma_disjoint(fs: Seq<Finding>)
    ensures
        run(fs).pac_map.dom().disjoint(transitive_set(run(fs))),
        run(fs).pac_map.dom().intersect(transitive_set(run(fs))) == Set::<Seq<u8>>::empty(),
{
    assert(run(fs).pac_map.dom().intersect(transitive_set(run(fs))) =~= Set::<Seq<u8>>::empty());
}

/// The package of every finding is reported in exactly one of two ways: as a
/// key of the package view, or as a member of the transitive set. A direct
/// finding has its soname among the misses of its package.
pub proof fn lemma_every_package_reported(fs: Seq<Finding>, i: int)
    requires
        0 <= i < fs.len(),
    ensures
        run(fs).pac_map.dom().contains(fs[i].package) != transitive_set(run(fs)).contains(
            fs[i].package,
        ),
        fs[i].direct ==> run(fs).pac_map.dom().contains(fs[i].package) && run(
            fs,
        ).pac_map[fs[i].package].contains(fs[i].soname),
{
    lemma_findings_recorded(fs, i);
}

/// A finding that is direct, or whose package has no direct miss at all, is
/// covered: its soname is among the misses of its package, or its package is in
/// the transitive set, and never both.
pub proof fn lemma_coverage(fs: Seq<Finding>, i: int)
    requires
        0 <= i < fs.len(),
        fs[i].direct || !run(fs).pac_map.dom().contains(fs[i].package),
    ensures
        (run(fs).pac_map.dom().contains(fs[i].package) && run(fs).pac_map[fs[i].package].contains(
            fs[i].soname,
        )) != transitive_set(run(fs)).contains(fs[i].package),
{
    lemma_findings_recorded(fs, i);
}

/// Where every finding is direct, as it is without the ELF metadata tool, no
/// package is reported as transitively broken.
pub proof fn lemma_all_direct(fs: Seq<Finding>)
    requires
        forall|i: int| 0 <= i < fs.len() ==> (#[trigger] fs[i]).direct,
    ensures
        run(fs).candidates == Set::<Seq<u8>>::empty(),
        transitive_set(run(fs)) == Set::<Seq<u8>>::empty(),
    decreases fs.len(),
{
    if fs.len() > 0 {
        let front = fs.drop_last();
        assert forall|i: int| 0 <= i < front.len() implies (#[trigger] front[i]).direct by {
            assert(front[i] == fs[i]);
        }
        lemma_all_direct(front);
        assert(fs.last() == fs[fs.len() - 1]);
    }
    assert(transitive_set(run(fs)) =~= Set::<Seq<u8>>::empty());
}

/// Every soname of the library view has a package with at least one artifact.
pub proof fn lemma_lib_map_inhabited(fs: Seq<Finding>, soname: Seq<u8>)
    requires
        run(fs).lib_map.dom().contains(soname),
    ensures
        exists|package: Seq<u8>| #[trigger]
            run(fs).lib_map[soname].dom().contains(package) && run(
                fs,
            ).lib_map[soname][package].len() > 0,
    decreases fs.len(),
{
    if fs.len() > 0 {
        let before = run(fs.drop_last());
        let f = fs.last();
        if f.direct && f.soname == soname {
            assert(run(fs).lib_map[soname].dom().contains(f.package));
            assert(run(fs).lib_map[soname][f.package].len() > 0);
        } else {
            lemma_lib_map_inhabited(fs.drop_last(), soname);
            let package = choose|package: Seq<u8>| #[trigger]
                before.lib_map[soname].dom().contains(package) && before.lib_map[soname][package].len()
                    > 0;
            assert(run(fs).lib_map[soname].dom().contains(package));
        }
    }
}

/// A soname has a provider only where some finding for it came with a
/// provider list that is not empty, and the provider is the first of such a list.
pub proof fn lemma_provider_was_found(fs: Seq<Finding>, soname: Seq<u8>)
    requires
        run(fs).pac_source_map.dom().contains(soname),
    ensures
        exists|i: int|
            0 <= i < fs.len() && (#[trigger] fs[i]).soname == soname && fs[i].providers.len() > 0
                && run(fs).pac_source_map[soname] == fs[i].providers[0],
    decreases fs.len(),
{
    if fs.len() > 0 {
        let front = fs.drop_last();
        let f = fs.last();
        if f.providers.len() > 0 && f.soname == soname {
            assert(fs[fs.len() - 1] == f);
        } else {
            lemma_provider_was_found(front, soname);
            let i = choose|i: int|
                0 <= i < front.len() && (#[trigger] front[i]).soname == soname
                    && front[i].providers.len() > 0 && run(front).pac_source_map[soname]
                    == front[i].providers[0];
            assert(fs[i] == front[i]);
        }
    }
}

} // verus!
