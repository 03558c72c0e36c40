//! Records of the index, the upstream batch response and the search API.

use vstd::prelude::*;
use crate::text::{chars_eq_str, chars_of};

verus! {

/// One text object of a batch response.
pub struct GqlFetchSrcInfoObject {
    pub text: String,
}

/// One error that the upstream reported for a batch.
pub struct GraphQLError {
    pub message: String,
}

/// The objects of a batch response, each under its alias (`x0`, `x1`, ...).
pub struct GqlFetchSrcInfoData {
    pub repository: Vec<(String, GqlFetchSrcInfoObject)>,
}

/// A batch response: data, or errors, or both.
pub struct GqlFetchSrcInfoResponse {
    pub data: Option<GqlFetchSrcInfoData>,
    pub errors: Option<Vec<GraphQLError>>,
}

/// The answer of the search API.
pub struct RpcResponse<T> {
    pub error: Option<String>,
    pub result_count: usize,
    pub results: Vec<T>,
    pub response_type: String,
    pub version: Option<u32>,
}

/// The scalar part of an indexed package.
#[derive(Debug, Clone)]
pub struct DatabasePackageInfo {
    pub branch: String,
    pub commit_id: String,
    pub pkg_name: String,
    pub pkg_desc: Option<String>,
    pub version: String,
    pub url: Option<String>,
}

/// An indexed package with its multi-valued attributes.
#[derive(Debug, Clone)]
pub struct DatabasePackageDetails {
    pub info: DatabasePackageInfo,
    pub depends: Vec<String>,
    pub make_depends: Vec<String>,
    pub opt_depends: Vec<String>,
    pub check_depends: Vec<String>,
    pub provides: Vec<String>,
    pub conflicts: Vec<String>,
    pub replaces: Vec<String>,
    pub groups: Vec<String>,
}

/// The attribute that a search matches on.
#[derive(Debug, Clone, Copy, PartialEq, Eq, Structural)]
pub enum SearchType {
    Name,
    NameDesc,
    Depends,
    MakeDepends,
    OptDepends,
    CheckDepends,
}

/// The search type that a `by` field names.
pub open spec fn search_type_of(s: Seq<char>) -> Option<SearchType> {
    if s == "name"@ {
        Some(SearchType::Name)
    } else if s == "name-desc"@ {
        Some(SearchType::NameDesc)
    } else if s == "depends"@ {
        Some(SearchType::Depends)
    } else if s == "makedepends"@ {
        Some(SearchType::MakeDepends)
    } else if s == "optdepends"@ {
        Some(SearchType::OptDepends)
    } else if s == "checkdepends"@ {
        Some(SearchType::CheckDepends)
    } else {
        None
    }
}

impl SearchType {
    /// Reads a `by` field.
    pub fn from_str(s: &str) -> (r: Option<Self>)
        ensures
            r == search_type_of(s@),
    {
        let v = chars_of(s);
        let n = v.len();
        assert(v@.subrange(0, n as int) =~= s@);
        if chars_eq_str(&v, 0, n, "name") {
            Some(SearchType::Name)
        } else if chars_eq_str(&v, 0, n, "name-desc") {
            Some(SearchType::NameDesc)
        } else if chars_eq_str(&v, 0, n, "depends") {
            Some(SearchType::Depends)
        } else if chars_eq_str(&v, 0, n, "makedepends") {
            Some(SearchType::MakeDepends)
        } else if chars_eq_str(&v, 0, n, "optdepends") {
            Some(SearchType::OptDepends)
        } else if chars_eq_str(&v, 0, n, "checkdepends") {
            Some(SearchType::CheckDepends)
        } else {
            None
        }
    }
}

} // verus!
