//! The description of one package version: the requirements of all its
//! variants, and the extra requirements of each variant.
use vstd::prelude::*;
use crate::requirement::strings_view;

verus! {

/// A copy of a list of strings.
pub fn copy_strings(v: &[String]) -> (r: Vec<String>)
    ensures
        strings_view(r@) == strings_view(v@),
{
    let mut r: Vec<String> = Vec::new();
    let mut i: usize = 0;
    while i < v.len()
        invariant
            i <= v@.len(),
            strings_view(r@) == strings_view(v@).take(i as int),
        decreases v@.len() - i,
    {
        let ghost before = strings_view(r@);
        r.push(v[i].clone());
        assert(strings_view(r@) =~= before.push(v@[i as int]@));
        i = i + 1;
        assert(strings_view(r@) =~= strings_view(v@).take(i as int));
    }
    assert(strings_view(v@).take(v@.len() as int) =~= strings_view(v@));
    r
}

/// The contents of a list of lists of strings.
pub open spec fn string_lists_view(v: Seq<Vec<String>>) -> Seq<Seq<Seq<char>>> {
    v.map_values(|l: Vec<String>| strings_view(l@))
}

/// Data for one package version: the requirements of every variant, and
/// for each variant its own extra requirements (none when the package
/// defines no variants).
#[derive(Debug)]
pub struct PackageData {
    /// Requirements of every variant.
    pub requires: Vec<String>,
    /// One list of extra requirements per variant.
    pub variants: Vec<Vec<String>>,
}

/// The model of a package version's data.
pub struct PackageDataModel {
    pub requires: Seq<Seq<char>>,
    pub variants: Seq<Seq<Seq<char>>>,
}

impl View for PackageData {
    type V = PackageDataModel;

    open spec fn view(&self) -> PackageDataModel {
        PackageDataModel { requires: strings_view(self.requires@), variants: string_lists_view(self.variants@) }
    }
}

/// The requirements of a single-variant package or a package without
/// variants: the common ones, then those of its one variant.
pub open spec fn combined_model(d: PackageDataModel) -> Seq<Seq<char>> {
    if d.variants.len() == 1 {
        d.requires + d.variants[0]
    } else {
        d.requires
    }
}

impl PackageData {
    /// A package version with no requirements and no variants.
    pub fn new() -> (r: PackageData)
        ensures
            r@.requires.len() == 0,
            r@.variants.len() == 0,
    {
        PackageData { requires: Vec::new(), variants: Vec::new() }
    }

    /// A copy of this data.
    pub fn duplicate(&self) -> (r: PackageData)
        ensures
            r@ == self@,
    {
        let mut variants: Vec<Vec<String>> = Vec::new();
        let mut i: usize = 0;
        while i < self.variants.len()
            invariant
                i <= self.variants@.len(),
                string_lists_view(variants@) == string_lists_view(self.variants@).take(i as int),
            decreases self.variants@.len() - i,
        {
            let ghost before = string_lists_view(variants@);
            variants.push(copy_strings(&self.variants[i]));
            assert(string_lists_view(variants@) =~= before.push(strings_view(self.variants@[i as int]@)));
            i = i + 1;
            assert(string_lists_view(variants@) =~= string_lists_view(self.variants@).take(i as int));
        }
        assert(string_lists_view(self.variants@).take(self.variants@.len() as int) =~= string_lists_view(
            self.variants@,
        ));
        PackageData { requires: copy_strings(&self.requires), variants }
    }

    /// Whether the package defines more than one variant.
    pub fn is_multi_variant(&self) -> (b: bool)
        ensures
            b == (self@.variants.len() > 1),
    {
        self.variants.len() > 1
    }

    /// The requirements of a package with one variant or none: the common
    /// requirements followed by those of its variant. For a package with
    /// several variants, only the common requirements.
    pub fn combined_requirements(&self) -> (r: Vec<String>)
        ensures
            strings_view(r@) == combined_model(self@),
    {
        let mut deps = copy_strings(&self.requires);
        if self.variants.len() == 1 {
            let extra = &self.variants[0];
            let ghost base = strings_view(deps@);
            let mut i: usize = 0;
            while i < extra.len()
                invariant
                    i <= extra@.len(),
                    strings_view(deps@) == base + strings_view(extra@).take(i as int),
                decreases extra@.len() - i,
            {
                let ghost before = strings_view(deps@);
                deps.push(extra[i].clone());
                assert(strings_view(deps@) =~= before.push(extra@[i as int]@));
                i = i + 1;
                assert(strings_view(deps@) =~= base + strings_view(extra@).take(i as int));
            }
            assert(strings_view(extra@).take(extra@.len() as int) =~= strings_view(extra@));
            assert(self@.variants[0] == strings_view(extra@));
        }
        deps
    }
}

impl Clone for PackageData {
    fn clone(&self) -> (r: Self)
        ensures
            r@ == self@,
    {
        self.duplicate()
    }
}

impl Default for PackageData {
    fn default() -> (r: Self)
        ensures
            r@.requires.len() == 0,
            r@.variants.len() == 0,
    {
        PackageData::new()
    }
}

} // verus!
