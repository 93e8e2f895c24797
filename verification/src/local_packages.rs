//! Packages found in package directories: for each family, its versions
//! and the directory of each, read once and kept.
use vstd::prelude::*;
use crate::requirement::strings_view;
use crate::text::str_eq;
use crate::requirement::RequirementList;

verus! {

/// The model of one family's versions: each version with its directory.
pub type VersionsModel = Seq<(Seq<char>, Seq<char>)>;

pub open spec fn versions_view(v: Seq<(String, String)>) -> VersionsModel {
    v.map_values(|e: (String, String)| (e.0@, e.1@))
}

/// The versions of `found`, each once, with the directory it was last
/// found in, in the order of first appearance (first `n` of them).
pub open spec fn merged_versions(found: VersionsModel, n: int) -> VersionsModel
    decreases n,
{
    if n <= 0 {
        Seq::empty()
    } else {
        let prev = merged_versions(found, n - 1);
        let e = found[n - 1];
        match index_of_version(prev, e.0, 0) {
            Some(k) => prev.update(k, e),
            None => prev.push(e),
        }
    }
}

/// The index of version `v` in `m`, from `i` on.
pub open spec fn index_of_version(m: VersionsModel, v: Seq<char>, i: int) -> Option<int>
    decreases m.len() - i,
{
    if i < 0 || i >= m.len() {
        None
    } else if m[i].0 == v {
        Some(i)
    } else {
        index_of_version(m, v, i + 1)
    }
}

fn find_version(m: &Vec<(String, String)>, v: &str) -> (r: Option<usize>)
    ensures
        match r {
            Some(k) => index_of_version(versions_view(m@), v@, 0) == Some(k as int) && k < m@.len(),
            None => index_of_version(versions_view(m@), v@, 0) is None,
        },
{
    let ghost mv = versions_view(m@);
    let mut i: usize = 0;
    while i < m.len()
        invariant
            i <= m@.len(),
            mv == versions_view(m@),
            index_of_version(mv, v@, 0) == index_of_version(mv, v@, i as int),
        decreases m.len() - i,
    {
        assert(mv[i as int].0 == m@[i as int].0@);
        if str_eq(m[i].0.as_str(), v) {
            return Some(i);
        }
        i = i + 1;
    }
    None
}

/// The versions found, each once, with the directory it was last found in
/// (a later directory replaces an earlier one).
pub fn merge_versions(found: Vec<(String, String)>) -> (r: Vec<(String, String)>)
    ensures
        versions_view(r@) == merged_versions(versions_view(found@), found@.len() as int),
{
    let ghost fv = versions_view(found@);
    let mut out: Vec<(String, String)> = Vec::new();
    let mut i: usize = 0;
    while i < found.len()
        invariant
            i <= found@.len(),
            fv == versions_view(found@),
            versions_view(out@) == merged_versions(fv, i as int),
        decreases found.len() - i,
    {
        let e = (found[i].0.clone(), found[i].1.clone());
        assert(fv[i as int] == (e.0@, e.1@));
        let ghost before = versions_view(out@);
        match find_version(&out, found[i].0.as_str()) {
            Some(k) => {
                out.set(k, e);
                assert(versions_view(out@) =~= before.update(k as int, fv[i as int]));
            },
            None => {
                out.push(e);
                assert(versions_view(out@) =~= before.push(fv[i as int]));
            },
        }
        i = i + 1;
    }
    out
}

/// The model of the packages found: each family with its versions, and
/// the package directories.
pub struct LocalPackagesModel {
    pub data: Seq<(Seq<char>, VersionsModel)>,
    pub paths: Seq<Seq<char>>,
}

/// The families found, and the directories to look in.
pub struct LocalPackages {
    data: Vec<(String, Vec<(String, String)>)>,
    paths: Vec<String>,
}

pub open spec fn data_view(v: Seq<(String, Vec<(String, String)>)>) -> Seq<(Seq<char>, VersionsModel)> {
    v.map_values(|e: (String, Vec<(String, String)>)| (e.0@, versions_view(e.1@)))
}

/// The index of the family `name` in `d`, from `i` on.
pub open spec fn index_of_family(d: Seq<(Seq<char>, VersionsModel)>, name: Seq<char>, i: int) -> Option<int>
    decreases d.len() - i,
{
    if i < 0 || i >= d.len() {
        None
    } else if d[i].0 == name {
        Some(i)
    } else {
        index_of_family(d, name, i + 1)
    }
}

/// What reading the versions of family `name` does, from the state `a`
/// to the state `b`, answering `r`, with `found` the versions found on
/// disk (each with its directory): a family read before is answered from
/// what was kept, and nothing changes; otherwise the versions found (a
/// later directory replacing an earlier one for the same version) are
/// kept and answered.
pub open spec fn versions_got(
    a: LocalPackagesModel,
    b: LocalPackagesModel,
    name: Seq<char>,
    found: VersionsModel,
    r: Seq<Seq<char>>,
) -> bool {
    &&& b.paths == a.paths
    &&& index_of_family(a.data, name, 0) matches Some(k) ==> b == a && r == a.data[k].1.map_values(
        |e: (Seq<char>, Seq<char>)| e.0,
    )
    &&& index_of_family(a.data, name, 0) is None ==> b.data == a.data.push((name, merged_versions(found, found.len() as int)))
        && r == merged_versions(found, found.len() as int).map_values(|e: (Seq<char>, Seq<char>)| e.0)
}

/// Reading a family's versions a second time answers what the first read
/// answered, whatever is found on disk then, and changes nothing.
pub proof fn law_get_versions_memo(
    a: LocalPackagesModel,
    b: LocalPackagesModel,
    c: LocalPackagesModel,
    name: Seq<char>,
    found1: VersionsModel,
    found2: VersionsModel,
    r1: Seq<Seq<char>>,
    r2: Seq<Seq<char>>,
)
    requires
        versions_got(a, b, name, found1, r1),
        versions_got(b, c, name, found2, r2),
    ensures
        c == b,
        r2 == r1,
{
    if index_of_family(a.data, name, 0) is None {
        let x = (name, merged_versions(found1, found1.len() as int));
        lemma_index_of_family_push(a.data, name, x, 0);
        assert(b.data[a.data.len() as int] == x);
    }
}

/// A family not found in `d` from `i` on is found at the end of `d` with
/// an entry for it pushed.
proof fn lemma_index_of_family_push(
    d: Seq<(Seq<char>, VersionsModel)>,
    name: Seq<char>,
    x: (Seq<char>, VersionsModel),
    i: int,
)
    requires
        0 <= i <= d.len(),
        index_of_family(d, name, i) is None,
        x.0 == name,
    ensures
        index_of_family(d.push(x), name, i) == Some(d.len() as int),
    decreases d.len() - i,
{
    if i < d.len() {
        assert(d.push(x)[i] == d[i]);
        lemma_index_of_family_push(d, name, x, i + 1);
    } else {
        assert(d.push(x)[i] == x);
    }
}

impl View for LocalPackages {
    type V = LocalPackagesModel;

    closed spec fn view(&self) -> LocalPackagesModel {
        LocalPackagesModel { data: data_view(self.data@), paths: strings_view(self.paths@) }
    }
}

impl LocalPackages {
    /// Nothing read yet; families are looked for in `paths`.
    pub fn lazy_paths(paths: Vec<String>) -> (r: LocalPackages)
        ensures
            r@.data.len() == 0,
            r@.paths == strings_view(paths@),
    {
        let r = LocalPackages { data: Vec::new(), paths };
        assert(data_view(r.data@) =~= Seq::<(Seq<char>, VersionsModel)>::empty());
        r
    }

    /// The families already known (each with its versions and their
    /// directories), and no directory to look in.
    pub fn from_data(data: Vec<(String, Vec<(String, String)>)>) -> (r: LocalPackages)
        ensures
            r@.data == data_view(data@),
            r@.paths.len() == 0,
    {
        let r = LocalPackages { data, paths: Vec::new() };
        assert(strings_view(r.paths@) =~= Seq::<Seq<char>>::empty());
        r
    }

    /// The directories to look in.
    pub fn paths(&self) -> (r: &[String])
        ensures
            strings_view(r@) == self@.paths,
    {
        self.paths.as_slice()
    }

    fn family_index(&self, name: &str) -> (r: Option<usize>)
        ensures
            match r {
                Some(k) => index_of_family(self@.data, name@, 0) == Some(k as int) && k < self@.data.len(),
                None => index_of_family(self@.data, name@, 0) is None,
            },
    {
        let ghost d = self@.data;
        let mut i: usize = 0;
        while i < self.data.len()
            invariant
                i <= d.len(),
                d == data_view(self.data@),
                index_of_family(d, name@, 0) == index_of_family(d, name@, i as int),
            decreases self.data.len() - i,
        {
            assert(d[i as int].0 == self.data@[i as int].0@);
            if str_eq(self.data[i].0.as_str(), name) {
                return Some(i);
            }
            i = i + 1;
        }
        None
    }

    /// Whether the family `name` was already read.
    pub fn is_cached(&self, name: &str) -> (b: bool)
        ensures
            b == (index_of_family(self@.data, name@, 0) is Some),
    {
        self.family_index(name).is_some()
    }

    /// The versions of the family `package_name`. The first time, the
    /// versions `found` in the package directories (each with its
    /// directory, in the order they were found) are kept, a later
    /// directory replacing an earlier one for the same version; after
    /// that, `found` is not looked at.
    pub fn get_versions(&mut self, package_name: &str, found: Vec<(String, String)>) -> (r: Vec<String>)
        ensures
            versions_got(old(self)@, final(self)@, package_name@, versions_view(found@), strings_view(r@)),
    {
        let k = match self.family_index(package_name) {
            Some(k) => k,
            None => {
                let merged = merge_versions(found);
                let ghost before = data_view(self.data@);
                self.data.push((package_name.to_owned(), merged));
                assert(data_view(self.data@) =~= before.push(data_view(self.data@)[before.len() as int]));
                self.data.len() - 1
            },
        };
        let versions = &self.data[k].1;
        let ghost vv = versions_view(versions@);
        let mut out: Vec<String> = Vec::new();
        let mut i: usize = 0;
        while i < versions.len()
            invariant
                i <= versions@.len(),
                vv == versions_view(versions@),
                strings_view(out@) == vv.take(i as int).map_values(|e: (Seq<char>, Seq<char>)| e.0),
            decreases versions.len() - i,
        {
            let ghost b0 = strings_view(out@);
            out.push(versions[i].0.clone());
            assert(strings_view(out@) =~= b0.push(vv[i as int].0));
            assert(vv.take(i + 1).map_values(|e: (Seq<char>, Seq<char>)| e.0) =~= vv.take(i as int).map_values(
                |e: (Seq<char>, Seq<char>)| e.0,
            ).push(vv[i as int].0));
            i = i + 1;
        }
        assert(vv.take(i as int) =~= vv);
        out
    }

    /// The requirements of version `version` of the family `package_name`,
    /// which must have been read: none are read from the package
    /// directories, so the list is empty.
    pub fn get_dependencies(&self, package_name: &str, version: &str) -> (r: RequirementList)
        requires
            index_of_family(self@.data, package_name@, 0) matches Some(k)
                && index_of_version(self@.data[k].1, version@, 0) is Some,
        ensures
            r@.requirements.len() == 0,
            r@.conflict is None,
    {
        RequirementList::new(Vec::new())
    }
}

} // verus!
