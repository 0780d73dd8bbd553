//! Package identifiers: names compared by their text.
use vstd::prelude::*;

verus! {

/// A package name. Two packages are equal when their names are.
#[derive(Debug, Clone, Eq, Hash)]
pub struct Package(pub String);

impl View for Package {
    type V = Seq<char>;

    open spec fn view(&self) -> Seq<char> {
        self.0@
    }
}

impl Package {
    /// The name of the package.
    pub fn as_str(&self) -> (r: &str)
        ensures
            r@ == self@,
    {
        self.0.as_str()
    }

    /// The name of the package, as an owned string.
    pub fn to_string(&self) -> (r: String)
        ensures
            r@ == self@,
    {
        String::from_str(self.0.as_str())
    }
}

impl PartialEq for Package {
    fn eq(&self, other: &Package) -> (r: bool)
        ensures
            r == (self@ == other@),
    {
        self.0 == other.0
    }
}

impl vstd::std_specs::cmp::PartialEqSpecImpl for Package {
    open spec fn obeys_eq_spec() -> bool {
        true
    }

    open spec fn eq_spec(&self, other: &Package) -> bool {
        self@ == other@
    }
}

impl From<&str> for Package {
    fn from(s: &str) -> (r: Package)
        ensures
            r@ == s@,
    {
        Package(String::from_str(s))
    }
}

impl vstd::std_specs::convert::FromSpecImpl<&str> for Package {
    open spec fn obeys_from_spec() -> bool {
        false
    }

    open spec fn from_spec(s: &str) -> Package {
        arbitrary()
    }
}

impl From<String> for Package {
    fn from(s: String) -> (r: Package)
        ensures
            r@ == s@,
    {
        Package(s)
    }
}

impl vstd::std_specs::convert::FromSpecImpl<String> for Package {
    open spec fn obeys_from_spec() -> bool {
        true
    }

    open spec fn from_spec(s: String) -> Package {
        Package(s)
    }
}

} // verus!
