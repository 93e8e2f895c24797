//! Identifiers of the packages a resolve deals with: a package, one of its
//! variants, or the virtual root of the request.
use vstd::prelude::*;
use vstd::std_specs::cmp::PartialEqSpecImpl;
use crate::text::{chars_of, string_from_chars};

verus! {

/// The model of a package identifier.
pub enum PackageIdModel {
    Base(Seq<char>),
    Variant(Seq<char>, usize),
    Root,
}

/// The decimal digits of `n`.
pub open spec fn decimal(n: nat) -> Seq<char>
    decreases n,
{
    if n < 10 {
        seq![digit_char(n)]
    } else {
        decimal(n / 10).push(digit_char(n % 10))
    }
}

/// The digit character of `d < 10`.
pub open spec fn digit_char(d: nat) -> char {
    (('0' as nat) + d) as char
}

/// The decimal text of a number.
pub fn decimal_text(n: u64) -> (s: Vec<char>)
    ensures
        s@ == decimal(n as nat),
    decreases n,
{
    if n < 10 {
        let c = digit_of(n);
        vec![c]
    } else {
        let mut s = decimal_text(n / 10);
        s.push(digit_of(n % 10));
        s
    }
}

fn digit_of(d: u64) -> (c: char)
    requires
        d < 10,
    ensures
        c == digit_char(d as nat),
{
    if d == 0 {
        '0'
    } else if d == 1 {
        '1'
    } else if d == 2 {
        '2'
    } else if d == 3 {
        '3'
    } else if d == 4 {
        '4'
    } else if d == 5 {
        '5'
    } else if d == 6 {
        '6'
    } else if d == 7 {
        '7'
    } else if d == 8 {
        '8'
    } else {
        '9'
    }
}

/// The text of a package identifier: the name, the name followed by the
/// variant index in brackets, or `__root__`.
pub open spec fn package_id_text(p: PackageIdModel) -> Seq<char> {
    match p {
        PackageIdModel::Base(name) => name,
        PackageIdModel::Variant(name, i) => name + seq!['['] + decimal(i as nat) + seq![']'],
        PackageIdModel::Root => seq!['_', '_', 'r', 'o', 'o', 't', '_', '_'],
    }
}

/// Identifies a package in a resolve.
#[derive(Debug, Hash)]
pub enum PackageId {
    /// A package (or the base of a package with variants), e.g. `foo`.
    Base(String),
    /// A variant of a package, e.g. `foo` variant `0`.
    Variant(String, usize),
    /// The virtual root that stands for the initial request.
    Root,
}

impl View for PackageId {
    type V = PackageIdModel;

    open spec fn view(&self) -> PackageIdModel {
        match self {
            PackageId::Base(name) => PackageIdModel::Base(name@),
            PackageId::Variant(name, i) => PackageIdModel::Variant(name@, *i),
            PackageId::Root => PackageIdModel::Root,
        }
    }
}

impl PackageId {
    /// The package name, `None` for the root.
    pub fn name(&self) -> (r: Option<&str>)
        ensures
            match self@ {
                PackageIdModel::Base(n) => r matches Some(s) && s@ == n,
                PackageIdModel::Variant(n, _) => r matches Some(s) && s@ == n,
                PackageIdModel::Root => r is None,
            },
    {
        match self {
            PackageId::Base(name) => Some(name.as_str()),
            PackageId::Variant(name, _) => Some(name.as_str()),
            PackageId::Root => None,
        }
    }

    /// Whether this is a variant.
    pub fn is_variant(&self) -> (b: bool)
        ensures
            b == (self@ is Variant),
    {
        match self {
            PackageId::Variant(..) => true,
            _ => false,
        }
    }

    /// Whether this is the root.
    pub fn is_root(&self) -> (b: bool)
        ensures
            b == (self@ is Root),
    {
        match self {
            PackageId::Root => true,
            _ => false,
        }
    }

    /// The identifier's text: `foo`, `foo[1]` or `__root__`.
    pub fn to_string(&self) -> (s: String)
        ensures
            s@ == package_id_text(self@),
    {
        match self {
            PackageId::Base(name) => name.clone(),
            PackageId::Variant(name, i) => {
                let mut out = chars_of(name.as_str());
                out.push('[');
                let d = decimal_text(*i as u64);
                let mut k: usize = 0;
                let ghost pre = out@;
                while k < d.len()
                    invariant
                        k <= d@.len(),
                        out@ == pre + d@.take(k as int),
                    decreases d.len() - k,
                {
                    out.push(d[k]);
                    k = k + 1;
                    assert(out@ =~= pre + d@.take(k as int));
                }
                out.push(']');
                assert(d@.take(k as int) =~= d@);
                assert(out@ =~= package_id_text(self@));
                string_from_chars(out.as_slice())
            },
            PackageId::Root => {
                let v = vec!['_', '_', 'r', 'o', 'o', 't', '_', '_'];
                assert(v@ =~= package_id_text(self@));
                string_from_chars(v.as_slice())
            },
        }
    }
}

impl Clone for PackageId {
    fn clone(&self) -> (r: Self)
        ensures
            r@ == self@,
    {
        match self {
            PackageId::Base(name) => PackageId::Base(name.clone()),
            PackageId::Variant(name, i) => PackageId::Variant(name.clone(), *i),
            PackageId::Root => PackageId::Root,
        }
    }
}

impl PartialEq for PackageId {
    fn eq(&self, other: &Self) -> (r: bool) {
        match (self, other) {
            (PackageId::Base(a), PackageId::Base(b)) => *a == *b,
            (PackageId::Variant(a, i), PackageId::Variant(b, j)) => *a == *b && *i == *j,
            (PackageId::Root, PackageId::Root) => true,
            _ => false,
        }
    }
}

impl PartialEqSpecImpl for PackageId {
    open spec fn obeys_eq_spec() -> bool {
        true
    }

    open spec fn eq_spec(&self, other: &Self) -> bool {
        self@ == other@
    }
}

impl Eq for PackageId {
}

} // verus!
