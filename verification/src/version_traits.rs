//! Equality, order and conversions of the version types.
use vstd::prelude::*;
use std::cmp::Ordering;
use vstd::std_specs::cmp::PartialEqSpecImpl;
use vstd::std_specs::cmp::PartialOrdSpecImpl;
use vstd::std_specs::convert::TryFromSpecImpl;
use crate::version::{SubToken, AlphanumericVersionToken, RerVersion, ordering_of, to_ordering};
use crate::version_order::{subtoken_compare, token_compare, version_compare, version_wf};
use crate::version::{is_parsed_version, version_text_ok};

verus! {

impl PartialEq for SubToken {
    fn eq(&self, other: &Self) -> (r: bool) {
        self.same_as(other)
    }
}

impl PartialEqSpecImpl for SubToken {
    open spec fn obeys_eq_spec() -> bool {
        true
    }

    open spec fn eq_spec(&self, other: &Self) -> bool {
        self@ == other@
    }
}

impl PartialOrd for SubToken {
    fn partial_cmp(&self, other: &Self) -> (r: Option<Ordering>) {
        Some(to_ordering(self.compare_with(other)))
    }
}

impl PartialOrdSpecImpl for SubToken {
    open spec fn obeys_partial_cmp_spec() -> bool {
        true
    }

    open spec fn partial_cmp_spec(&self, other: &Self) -> Option<Ordering> {
        Some(ordering_of(subtoken_compare(self@, other@)))
    }
}

impl PartialEq for AlphanumericVersionToken {
    fn eq(&self, other: &Self) -> (r: bool) {
        self.same_as(other)
    }
}

impl PartialEqSpecImpl for AlphanumericVersionToken {
    open spec fn obeys_eq_spec() -> bool {
        true
    }

    open spec fn eq_spec(&self, other: &Self) -> bool {
        self@ == other@
    }
}

impl PartialOrd for AlphanumericVersionToken {
    fn partial_cmp(&self, other: &Self) -> (r: Option<Ordering>) {
        Some(to_ordering(self.compare_with(other)))
    }
}

impl PartialOrdSpecImpl for AlphanumericVersionToken {
    open spec fn obeys_partial_cmp_spec() -> bool {
        true
    }

    open spec fn partial_cmp_spec(&self, other: &Self) -> Option<Ordering> {
        Some(ordering_of(token_compare(self@, other@)))
    }
}

impl PartialEq for RerVersion {
    fn eq(&self, other: &Self) -> (r: bool) {
        self.same_as(other)
    }
}

impl PartialEqSpecImpl for RerVersion {
    open spec fn obeys_eq_spec() -> bool {
        true
    }

    open spec fn eq_spec(&self, other: &Self) -> bool {
        self@ == other@
    }
}

impl PartialOrd for RerVersion {
    fn partial_cmp(&self, other: &Self) -> (r: Option<Ordering>) {
        Some(to_ordering(self.compare_with(other)))
    }
}

impl PartialOrdSpecImpl for RerVersion {
    open spec fn obeys_partial_cmp_spec() -> bool {
        true
    }

    open spec fn partial_cmp_spec(&self, other: &Self) -> Option<Ordering> {
        Some(ordering_of(version_compare(self@, other@)))
    }
}

impl<'a> TryFrom<&'a str> for RerVersion {
    type Error = &'static str;

    fn try_from(s: &'a str) -> (r: Result<Self, Self::Error>)
        ensures
            r is Err <==> !version_text_ok(s@),
            r matches Ok(v) ==> is_parsed_version(s@, v@) && version_wf(v@),
    {
        RerVersion::parse_from_string(s)
    }
}

impl TryFrom<String> for RerVersion {
    type Error = &'static str;

    fn try_from(s: String) -> (r: Result<Self, Self::Error>)
        ensures
            r is Err <==> !version_text_ok(s@),
            r matches Ok(v) ==> is_parsed_version(s@, v@) && version_wf(v@),
    {
        RerVersion::parse_from_string(s.as_str())
    }
}

// The conversions state their result in their own contracts, over the
// parse relation; there is no spec function that computes it.
impl<'a> TryFromSpecImpl<&'a str> for RerVersion {
    open spec fn obeys_try_from_spec() -> bool {
        false
    }

    open spec fn try_from_spec(v: &'a str) -> Result<Self, Self::Error> {
        vstd::pervasive::arbitrary()
    }
}

impl TryFromSpecImpl<String> for RerVersion {
    open spec fn obeys_try_from_spec() -> bool {
        false
    }

    open spec fn try_from_spec(v: String) -> Result<Self, Self::Error> {
        vstd::pervasive::arbitrary()
    }
}

} // verus!
