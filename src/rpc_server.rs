//! The decisions of the read API: how a search/info request is validated
//! and routed, and the texts that the snapshot and git endpoints answer with.

use vstd::prelude::*;
use crate::srcinfo_parse::strs_view;
use crate::text::{chars_eq_str, chars_of, parse_u64, parse_u64_of, string_between};
use crate::types::{search_type_of, RpcResponse, SearchType};

verus! {

/// The API version that requests must name.
pub const API_VERSION: u32 = 5;

/// The answer that reports `message` as an error.
pub fn error_response(message: String, version: Option<u32>) -> (r: RpcResponse<()>)
    ensures
        r.error == Some(message),
        r.result_count == 0,
        r.results@.len() == 0,
        r.response_type@ == "error"@,
        r.version == version,
{
    RpcResponse {
        error: Some(message),
        result_count: 0,
        results: Vec::new(),
        response_type: String::from_str("error"),
        version,
    }
}

/// Where a request goes.
pub enum RpcRoute {
    /// Answer with an error: its message and the version to report.
    Reject { message: String, version: Option<u32> },
    /// Search by `by` for `keyword`.
    Search { by: SearchType, keyword: String },
    /// Look up the packages named `names`.
    Info { names: Vec<String> },
}

pub enum RouteView {
    Reject(Seq<char>, Option<u32>),
    Search(SearchType, Seq<char>),
    Info(Seq<Seq<char>>),
}

pub open spec fn route_view(r: RpcRoute) -> RouteView {
    match r {
        RpcRoute::Reject { message, version } => RouteView::Reject(message@, version),
        RpcRoute::Search { by, keyword } => RouteView::Search(by, keyword@),
        RpcRoute::Info { names } => RouteView::Info(strs_view(names@)),
    }
}

/// What `str::parse::<u32>` gives.
pub open spec fn parse_u32_of(s: Seq<char>) -> Option<u32> {
    match parse_u64_of(s) {
        Some(n) => if n <= u32::MAX {
            Some(n as u32)
        } else {
            None
        },
        None => None,
    }
}

/// The route of a request: the version must be `5` (else the error reports
/// the version as a number, where it is one); the type must be `search` or
/// `info`; a search needs a non-empty first argument and a known `by`
/// (`name-desc` where none is given); an info needs an argument.
pub open spec fn route_of(
    version: Option<Seq<char>>,
    request_type: Option<Seq<char>>,
    search_by: Option<Seq<char>>,
    args: Seq<Seq<char>>,
) -> RouteView {
    match version {
        None => RouteView::Reject("Please specify an API version."@, None),
        Some(v) => if v != "5"@ {
            RouteView::Reject("Invalid version specified."@, parse_u32_of(v))
        } else {
            match request_type {
                None => RouteView::Reject("No request type/data specified."@, Some(5u32)),
                Some(t) => if t == "search"@ {
                    let keyword = if args.len() > 0 {
                        args[0]
                    } else {
                        Seq::empty()
                    };
                    let by = match search_by {
                        Some(b) => b,
                        None => "name-desc"@,
                    };
                    if keyword.len() == 0 {
                        RouteView::Reject("Query arg too small."@, Some(5u32))
                    } else {
                        match search_type_of(by) {
                            Some(st) => RouteView::Search(st, keyword),
                            None => RouteView::Reject("Incorrect by field specified."@, Some(5u32)),
                        }
                    }
                } else if t == "info"@ {
                    if args.len() == 0 {
                        RouteView::Reject("No request type/data specified."@, Some(5u32))
                    } else {
                        RouteView::Info(args)
                    }
                } else {
                    RouteView::Reject("Incorrect request type specified."@, Some(5u32))
                },
            }
        },
    }
}

fn is_exactly(s: &str, lit: &str) -> (r: bool)
    ensures
        r == (s@ == lit@),
{
    let v = chars_of(s);
    assert(v@.subrange(0, v@.len() as int) =~= s@);
    chars_eq_str(&v, 0, v.len(), lit)
}

fn parse_u32(s: &str) -> (r: Option<u32>)
    ensures
        r == parse_u32_of(s@),
{
    match parse_u64(s) {
        Some(n) => if n <= 0xffff_ffffu64 {
            Some(n as u32)
        } else {
            None
        },
        None => None,
    }
}

fn reject(message: &str, version: Option<u32>) -> (r: RpcRoute)
    ensures
        route_view(r) == RouteView::Reject(message@, version),
{
    RpcRoute::Reject { message: String::from_str(message), version }
}

/// Validates a search/info request and says where it goes.
pub fn route_rpc_request(
    version: Option<String>,
    request_type: Option<String>,
    search_by: Option<String>,
    args: Vec<String>,
) -> (r: RpcRoute)
    ensures
        route_view(r) == route_of(
            crate::aur_fetcher::opt_view(version),
            crate::aur_fetcher::opt_view(request_type),
            crate::aur_fetcher::opt_view(search_by),
            strs_view(args@),
        ),
{
    let v = match version {
        None => {
            return reject("Please specify an API version.", None);
        },
        Some(v) => v,
    };
    if !is_exactly(v.as_str(), "5") {
        return reject("Invalid version specified.", parse_u32(v.as_str()));
    }
    let t = match request_type {
        None => {
            return reject("No request type/data specified.", Some(API_VERSION));
        },
        Some(t) => t,
    };
    if is_exactly(t.as_str(), "search") {
        let keyword = if args.len() > 0 {
            args[0].clone()
        } else {
            String::new()
        };
        if keyword.as_str().unicode_len() == 0 {
            return reject("Query arg too small.", Some(API_VERSION));
        }
        let st = match &search_by {
            Some(b) => SearchType::from_str(b.as_str()),
            None => SearchType::from_str("name-desc"),
        };
        match st {
            Some(by) => RpcRoute::Search { by, keyword },
            None => reject("Incorrect by field specified.", Some(API_VERSION)),
        }
    } else if is_exactly(t.as_str(), "info") {
        if args.len() == 0 {
            return reject("No request type/data specified.", Some(API_VERSION));
        }
        RpcRoute::Info { names: args }
    } else {
        reject("Incorrect request type specified.", Some(API_VERSION))
    }
}

/// `s` without the suffix `suf`, where it ends with it.
pub open spec fn strip_suffix_of(s: Seq<char>, suf: Seq<char>) -> Option<Seq<char>> {
    if suf.len() <= s.len() && s.subrange(s.len() - suf.len(), s.len() as int) == suf {
        Some(s.subrange(0, s.len() - suf.len()))
    } else {
        None
    }
}

fn strip_suffix(s: &str, suf: &str) -> (r: Option<String>)
    ensures
        match r {
            Some(t) => strip_suffix_of(s@, suf@) == Some(t@),
            None => strip_suffix_of(s@, suf@) is None,
        },
{
    let v = chars_of(s);
    let n = v.len();
    let m = suf.unicode_len();
    if m > n {
        return None;
    }
    if chars_eq_str(&v, n - m, n, suf) {
        Some(string_between(s, 0, n - m))
    } else {
        None
    }
}

/// The branch that a snapshot name `<branch>.tar.gz` asks for.
pub fn snapshot_branch(snapshot_name: &str) -> (r: Option<String>)
    ensures
        match r {
            Some(t) => strip_suffix_of(snapshot_name@, ".tar.gz"@) == Some(t@),
            None => strip_suffix_of(snapshot_name@, ".tar.gz"@) is None,
        },
{
    strip_suffix(snapshot_name, ".tar.gz")
}

/// The branch of a repository path, with a `.git` ending dropped.
pub fn git_branch_name(branch: &str) -> (r: String)
    ensures
        r@ == match strip_suffix_of(branch@, ".git"@) {
            Some(t) => t,
            None => branch@,
        },
{
    match strip_suffix(branch, ".git") {
        Some(t) => t,
        None => String::from_str(branch),
    }
}

/// The SQL text of a search by `st`, with its `?` placeholders.
pub open spec fn search_sql_of(st: SearchType) -> Seq<char> {
    match st {
        SearchType::Name => "SELECT DISTINCT p.* FROM pkg_info p WHERE p.pkg_name LIKE ?"@,
        SearchType::NameDesc => "SELECT DISTINCT p.* FROM pkg_info p WHERE (p.pkg_name LIKE ? OR p.pkg_desc LIKE ?)"@,
        SearchType::Depends => "SELECT DISTINCT p.* FROM pkg_info p JOIN pkg_depends d ON p.pkg_name = d.pkg_name AND p.branch = d.branch WHERE d.depend = ?"@,
        SearchType::MakeDepends => "SELECT DISTINCT p.* FROM pkg_info p JOIN pkg_make_depends md ON p.pkg_name = md.pkg_name AND p.branch = md.branch WHERE md.make_depend = ?"@,
        SearchType::OptDepends => "SELECT DISTINCT p.* FROM pkg_info p JOIN pkg_opt_depends od ON p.pkg_name = od.pkg_name AND p.branch = od.branch WHERE od.opt_depend = ?"@,
        SearchType::CheckDepends => "SELECT DISTINCT p.* FROM pkg_info p JOIN pkg_check_depends cd ON p.pkg_name = cd.pkg_name AND p.branch = cd.branch WHERE cd.check_depend = ?"@,
    }
}

/// What each placeholder of a search is bound to: a substring pattern for
/// the name searches, the keyword itself for the attribute ones.
pub open spec fn search_param_of(st: SearchType, keyword: Seq<char>) -> Seq<char> {
    match st {
        SearchType::Name | SearchType::NameDesc => "%"@ + keyword + "%"@,
        _ => keyword,
    }
}

/// How many placeholders the SQL of a search by `st` has.
pub open spec fn search_binds_of(st: SearchType) -> usize {
    match st {
        SearchType::NameDesc => 2,
        _ => 1,
    }
}

/// A search as the index runs it: its SQL, and the parameter bound to each
/// of its `binds` placeholders.
pub struct SearchQuery {
    pub sql: String,
    pub param: String,
    pub binds: usize,
}

/// The query of a search by `st` for `keyword`.
pub fn search_query(st: SearchType, keyword: &str) -> (r: SearchQuery)
    ensures
        r.sql@ == search_sql_of(st),
        r.param@ == search_param_of(st, keyword@),
        r.binds == search_binds_of(st),
{
    let pattern = String::from_str("%").concat(keyword).concat("%");
    match st {
        SearchType::Name => SearchQuery {
            sql: String::from_str("SELECT DISTINCT p.* FROM pkg_info p WHERE p.pkg_name LIKE ?"),
            param: pattern,
            binds: 1,
        },
        SearchType::NameDesc => SearchQuery {
            sql: String::from_str("SELECT DISTINCT p.* FROM pkg_info p WHERE (p.pkg_name LIKE ? OR p.pkg_desc LIKE ?)"),
            param: pattern,
            binds: 2,
        },
        SearchType::Depends => SearchQuery {
            sql: String::from_str("SELECT DISTINCT p.* FROM pkg_info p JOIN pkg_depends d ON p.pkg_name = d.pkg_name AND p.branch = d.branch WHERE d.depend = ?"),
            param: String::from_str(keyword),
            binds: 1,
        },
        SearchType::MakeDepends => SearchQuery {
            sql: String::from_str("SELECT DISTINCT p.* FROM pkg_info p JOIN pkg_make_depends md ON p.pkg_name = md.pkg_name AND p.branch = md.branch WHERE md.make_depend = ?"),
            param: String::from_str(keyword),
            binds: 1,
        },
        SearchType::OptDepends => SearchQuery {
            sql: String::from_str("SELECT DISTINCT p.* FROM pkg_info p JOIN pkg_opt_depends od ON p.pkg_name = od.pkg_name AND p.branch = od.branch WHERE od.opt_depend = ?"),
            param: String::from_str(keyword),
            binds: 1,
        },
        SearchType::CheckDepends => SearchQuery {
            sql: String::from_str("SELECT DISTINCT p.* FROM pkg_info p JOIN pkg_check_depends cd ON p.pkg_name = cd.pkg_name AND p.branch = cd.branch WHERE cd.check_depend = ?"),
            param: String::from_str(keyword),
            binds: 1,
        },
    }
}

/// The snapshot path that a search or info result names for `branch`.
pub fn snapshot_path(branch: &str) -> (r: String)
    ensures
        r@ == "/cgit/aur.git/snapshot/"@ + branch@ + ".tar.gz"@,
{
    String::from_str("/cgit/aur.git/snapshot/").concat(branch).concat(".tar.gz")
}

/// Where the upstream serves the archive of `commit_id`.
pub fn snapshot_url(commit_id: &str) -> (r: String)
    ensures
        r@ == "https://github.com/archlinux/aur/archive/"@ + commit_id@ + ".tar.gz"@,
{
    String::from_str("https://github.com/archlinux/aur/archive/").concat(commit_id).concat(".tar.gz")
}

/// The ref advertisement served for a branch at `commit_id`: the commit is
/// the only ref, as `HEAD` and as `refs/heads/master`.
pub fn git_info_refs_body(commit_id: &str) -> (r: String)
    ensures
        r@ == "001e# service=git-upload-pack\n000000e1"@ + commit_id@
            + " HEAD\u{0000}multi_ack thin-pack side-band side-band-64k ofs-delta no-progress include-tag multi_ack_detailed no-done symref=HEAD:refs/heads/master object-format=sha1 agent=git/aur-mirror\n003f"@
            + commit_id@ + " refs/heads/master\n0000"@,
{
    String::from_str("001e# service=git-upload-pack\n000000e1").concat(commit_id).concat(
        " HEAD\u{0000}multi_ack thin-pack side-band side-band-64k ofs-delta no-progress include-tag multi_ack_detailed no-done symref=HEAD:refs/heads/master object-format=sha1 agent=git/aur-mirror\n003f",
    ).concat(commit_id).concat(" refs/heads/master\n0000")
}

} // verus!
