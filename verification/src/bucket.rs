//! Names of buckets.

use vstd::prelude::*;
use crate::error::{Error, ErrorKind, Result};
use crate::manifest::{options_equal, same_options};
use crate::options::BucketOptions;
use crate::storage_names::same_text;
use crate::validation::{bucket_options_problem, validate_bucket_options};

verus! {

/// Name of the built-in default bucket.
pub const DEFAULT_BUCKET_NAME: &'static str = "default";

/// Name of an optional bucket.
#[derive(Debug, Clone, PartialEq, Eq, Hash)]
pub struct BucketName(String);

impl BucketName {
    pub closed spec fn spec_name(&self) -> Seq<char> {
        self.0@
    }

    #[must_use]
    pub fn new(name: String) -> (r: Self)
        ensures
            r.spec_name() == name@,
    {
        Self(name)
    }

    #[must_use]
    pub fn as_str(&self) -> (r: &str)
        ensures
            r@ == self.spec_name(),
    {
        self.0.as_str()
    }
}

impl From<String> for BucketName {
    fn from(name: String) -> (r: Self)
        ensures
            r.spec_name() == name@,
    {
        Self(name)
    }
}

impl vstd::std_specs::convert::FromSpecImpl<String> for BucketName {
    open spec fn obeys_from_spec() -> bool {
        true
    }

    closed spec fn from_spec(name: String) -> Self {
        BucketName(name)
    }
}

impl From<&str> for BucketName {
    fn from(name: &str) -> (r: Self)
        ensures
            r.spec_name() == name@,
    {
        Self(name.to_owned())
    }
}

impl vstd::std_specs::convert::FromSpecImpl<&str> for BucketName {
    open spec fn obeys_from_spec() -> bool {
        false
    }

    closed spec fn from_spec(name: &str) -> Self {
        choose|r: BucketName| r.spec_name() == name@
    }
}

/// What a request for a named bucket leads to.
#[derive(Debug, Clone, Copy, PartialEq, Eq, Structural)]
pub enum BucketDecision {
    /// The bucket exists with the requested options.
    UseExisting,
    /// The bucket is new and is to be created with the requested options.
    Create,
}

/// The outcome of asking for the bucket `name` with `options`, given the
/// options of the bucket of that name if it exists and whether the database
/// is read-only: the name must be non-empty and not the default bucket's,
/// the options valid, and an existing bucket's options the same; a missing
/// bucket cannot be created in a read-only database. An error is given by
/// its kind and message.
pub open spec fn bucket_request(
    name: Seq<char>,
    options: BucketOptions,
    existing: Option<BucketOptions>,
    read_only: bool,
) -> core::result::Result<BucketDecision, (ErrorKind, Seq<char>)> {
    if name.len() == 0 {
        Err((ErrorKind::InvalidOptions, "bucket name cannot be empty"@))
    } else if name == DEFAULT_BUCKET_NAME@ {
        Err((ErrorKind::InvalidOptions, "default bucket is accessed through Db helpers"@))
    } else if bucket_options_problem(options) is Some {
        Err((ErrorKind::InvalidOptions, bucket_options_problem(options).unwrap()))
    } else {
        match existing {
            Some(o) => if same_options(o, options) {
                Ok(BucketDecision::UseExisting)
            } else {
                Err((ErrorKind::InvalidOptions, "existing bucket options do not match requested options"@))
            },
            None => if read_only {
                Err((ErrorKind::ReadOnly, "database is read-only"@))
            } else {
                Ok(BucketDecision::Create)
            },
        }
    }
}

/// Decides a request for the named bucket `name` with `options`.
pub fn check_bucket_request(name: &str, options: &BucketOptions, existing: Option<&BucketOptions>, read_only: bool) -> (r: Result<BucketDecision>)
    ensures
        match bucket_request(name@, *options, match existing { Some(o) => Some(*o), None => None }, read_only) {
            Ok(d) => r == Ok::<BucketDecision, Error>(d),
            Err((kind, message)) => r matches Err(e) && e.kind() == kind && e.message_view() == message,
        },
{
    if name.unicode_len() == 0 {
        return Err(Error::invalid_options("bucket name cannot be empty"));
    }
    if same_text(name, DEFAULT_BUCKET_NAME) {
        return Err(Error::invalid_options("default bucket is accessed through Db helpers"));
    }
    match validate_bucket_options(options) {
        Ok(()) => {},
        Err(e) => return Err(e),
    }
    match existing {
        Some(o) => {
            if options_equal(o, options) {
                Ok(BucketDecision::UseExisting)
            } else {
                Err(Error::invalid_options("existing bucket options do not match requested options"))
            }
        },
        None => {
            if read_only {
                Err(Error::ReadOnly)
            } else {
                Ok(BucketDecision::Create)
            }
        },
    }
}

} // verus!
