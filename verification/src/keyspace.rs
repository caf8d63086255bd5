//! Names of keyspaces.

use vstd::prelude::*;

verus! {

/// Name of a keyspace.
#[derive(Debug, Clone, PartialEq, Eq, Hash)]
pub struct KeyspaceName(String);

impl KeyspaceName {
    pub closed spec fn spec_name(&self) -> Seq<char> {
        self.0@
    }

    #[must_use]
    pub fn new(name: String) -> (r: Self)
        ensures
            r.spec_name() == name@,
    {
        Self(name)
    }

    #[must_use]
    pub fn as_str(&self) -> (r: &str)
        ensures
            r@ == self.spec_name(),
    {
        self.0.as_str()
    }
}

impl From<String> for KeyspaceName {
    fn from(name: String) -> (r: Self)
        ensures
            r.spec_name() == name@,
    {
        Self(name)
    }
}

impl vstd::std_specs::convert::FromSpecImpl<String> for KeyspaceName {
    open spec fn obeys_from_spec() -> bool {
        true
    }

    closed spec fn from_spec(name: String) -> Self {
        KeyspaceName(name)
    }
}

impl From<&str> for KeyspaceName {
    fn from(name: &str) -> (r: Self)
        ensures
            r.spec_name() == name@,
    {
        Self(name.to_owned())
    }
}

impl vstd::std_specs::convert::FromSpecImpl<&str> for KeyspaceName {
    open spec fn obeys_from_spec() -> bool {
        false
    }

    closed spec fn from_spec(name: &str) -> Self {
        choose|r: KeyspaceName| r.spec_name() == name@
    }
}

} // verus!
