//! A case-insensitive text key: the stored form is ASCII-lowercased, and
//! equality is decided on that normalized form alone.

use vstd::prelude::*;

use crate::text::{ascii_lowercase, lower_chars};

verus! {

/// Case insensitive string. Construction normalizes the text by ASCII
/// lowercasing, and only the normalized form is kept: two keys that differ
/// only in ASCII case are equal. The original casing is not recoverable.
#[derive(Eq, Hash, Debug)]
pub struct CaseString {
    inner: String,
}

impl View for CaseString {
    type V = Seq<char>;

    closed spec fn view(&self) -> Seq<char> {
        self.inner@
    }
}

impl CaseString {
    /// Build a key from text; the stored form is the ASCII-lowercased text.
    pub fn from(s: &str) -> (r: CaseString)
        ensures
            r@ == lower_chars(s@),
    {
        CaseString { inner: ascii_lowercase(s) }
    }

    /// Hand out the normalized (lowercased) form.
    pub fn to_string(self) -> (r: String)
        ensures
            r@ == self@,
    {
        self.inner
    }
}

impl PartialEq for CaseString {
    fn eq(&self, other: &CaseString) -> (r: bool) {
        self.inner == other.inner
    }
}

impl vstd::std_specs::cmp::PartialEqSpecImpl for CaseString {
    open spec fn obeys_eq_spec() -> bool {
        true
    }

    open spec fn eq_spec(&self, other: &CaseString) -> bool {
        self@ == other@
    }
}

impl PartialEq<String> for CaseString {
    fn eq(&self, other: &String) -> (r: bool) {
        let lowered = ascii_lowercase(other.as_str());
        self.inner == lowered
    }
}

impl vstd::std_specs::cmp::PartialEqSpecImpl<String> for CaseString {
    open spec fn obeys_eq_spec() -> bool {
        true
    }

    open spec fn eq_spec(&self, other: &String) -> bool {
        self@ == lower_chars(other@)
    }
}

} // verus!
