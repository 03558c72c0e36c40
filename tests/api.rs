use aur_mirror_meta::rpc_server::{
    error_response, git_branch_name, git_info_refs_body, route_rpc_request, search_query,
    snapshot_branch, snapshot_path, snapshot_url, RpcRoute,
};
use aur_mirror_meta::text::{decimal_string, parse_u64};
use aur_mirror_meta::types::SearchType;

fn s(v: &str) -> Option<String> {
    Some(v.to_string())
}

fn rejected(r: RpcRoute) -> (String, Option<u32>) {
    match r {
        RpcRoute::Reject { message, version } => (message, version),
        _ => panic!("expected a rejection"),
    }
}

#[test]
fn search_type_names() {
    assert_eq!(SearchType::from_str("name"), Some(SearchType::Name));
    assert_eq!(SearchType::from_str("name-desc"), Some(SearchType::NameDesc));
    assert_eq!(SearchType::from_str("depends"), Some(SearchType::Depends));
    assert_eq!(SearchType::from_str("makedepends"), Some(SearchType::MakeDepends));
    assert_eq!(SearchType::from_str("optdepends"), Some(SearchType::OptDepends));
    assert_eq!(SearchType::from_str("checkdepends"), Some(SearchType::CheckDepends));
    assert_eq!(SearchType::from_str("maintainer"), None);
    assert_eq!(SearchType::from_str(""), None);
}

#[test]
fn route_requires_version_five() {
    assert_eq!(
        rejected(route_rpc_request(None, s("search"), None, vec![])),
        ("Please specify an API version.".to_string(), None)
    );
    assert_eq!(
        rejected(route_rpc_request(s("4"), s("search"), None, vec![])),
        ("Invalid version specified.".to_string(), Some(4))
    );
    assert_eq!(
        rejected(route_rpc_request(s("x"), s("search"), None, vec![])),
        ("Invalid version specified.".to_string(), None)
    );
}

#[test]
fn route_checks_type_and_args() {
    assert_eq!(
        rejected(route_rpc_request(s("5"), None, None, vec![])),
        ("No request type/data specified.".to_string(), Some(5))
    );
    assert_eq!(
        rejected(route_rpc_request(s("5"), s("search"), None, vec![])),
        ("Query arg too small.".to_string(), Some(5))
    );
    assert_eq!(
        rejected(route_rpc_request(s("5"), s("search"), s("votes"), vec!["x".to_string()])),
        ("Incorrect by field specified.".to_string(), Some(5))
    );
    assert_eq!(
        rejected(route_rpc_request(s("5"), s("info"), None, vec![])),
        ("No request type/data specified.".to_string(), Some(5))
    );
    assert_eq!(
        rejected(route_rpc_request(s("5"), s("suggest"), None, vec![])),
        ("Incorrect request type specified.".to_string(), Some(5))
    );
}

#[test]
fn route_search_and_info() {
    match route_rpc_request(s("5"), s("search"), None, vec!["paru".to_string()]) {
        RpcRoute::Search { by, keyword } => {
            assert_eq!(by, SearchType::NameDesc);
            assert_eq!(keyword, "paru");
        }
        _ => panic!("expected a search"),
    }
    match route_rpc_request(s("5"), s("search"), s("depends"), vec!["glibc".to_string()]) {
        RpcRoute::Search { by, .. } => assert_eq!(by, SearchType::Depends),
        _ => panic!("expected a search"),
    }
    match route_rpc_request(s("5"), s("info"), None, vec!["a".to_string(), "b".to_string()]) {
        RpcRoute::Info { names } => assert_eq!(names, vec!["a".to_string(), "b".to_string()]),
        _ => panic!("expected an info"),
    }
}

#[test]
fn error_response_fields() {
    let r = error_response("boom".to_string(), Some(5));
    assert_eq!(r.error.as_deref(), Some("boom"));
    assert_eq!(r.result_count, 0);
    assert!(r.results.is_empty());
    assert_eq!(r.response_type, "error");
    assert_eq!(r.version, Some(5));
}

#[test]
fn snapshot_and_git_names() {
    assert_eq!(snapshot_branch("paru.tar.gz"), Some("paru".to_string()));
    assert_eq!(snapshot_branch("paru.zip"), None);
    assert_eq!(git_branch_name("yay.git"), "yay");
    assert_eq!(git_branch_name("yay"), "yay");
    assert_eq!(snapshot_url("abc"), "https://github.com/archlinux/aur/archive/abc.tar.gz");
}

#[test]
fn git_advertisement_names_the_commit_twice() {
    let body = git_info_refs_body("0123456789012345678901234567890123456789");
    assert!(body.starts_with("001e# service=git-upload-pack\n000000e10123456789012345678901234567890123456789 HEAD\0"));
    assert!(body.ends_with("0123456789012345678901234567890123456789 refs/heads/master\n0000"));
}

#[test]
fn decimal_numbers() {
    assert_eq!(parse_u64("42"), Some(42));
    assert_eq!(parse_u64("+7"), Some(7));
    assert_eq!(parse_u64(""), None);
    assert_eq!(parse_u64("+"), None);
    assert_eq!(parse_u64("-1"), None);
    assert_eq!(parse_u64("18446744073709551615"), Some(u64::MAX));
    assert_eq!(parse_u64("18446744073709551616"), None);
    assert_eq!(decimal_string(0), "0");
    assert_eq!(decimal_string(1234), "1234");
}

#[test]
fn snapshot_path_of_branch() {
    assert_eq!(snapshot_path("paru"), "/cgit/aur.git/snapshot/paru.tar.gz");
}

#[test]
fn search_queries_per_type() {
    let q = search_query(SearchType::Name, "par");
    assert_eq!(q.sql, "SELECT DISTINCT p.* FROM pkg_info p WHERE p.pkg_name LIKE ?");
    assert_eq!(q.param, "%par%");
    assert_eq!(q.binds, 1);
    let q = search_query(SearchType::NameDesc, "par");
    assert_eq!(q.param, "%par%");
    assert_eq!(q.binds, 2);
    let q = search_query(SearchType::MakeDepends, "cmake");
    assert_eq!(
        q.sql,
        "SELECT DISTINCT p.* FROM pkg_info p JOIN pkg_make_depends md ON p.pkg_name = md.pkg_name AND p.branch = md.branch WHERE md.make_depend = ?"
    );
    assert_eq!(q.param, "cmake");
    assert_eq!(q.binds, 1);
}
