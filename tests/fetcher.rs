use aur_mirror_meta::aur_fetcher::{
    batch_texts, build_batch_query, decide_retry, parse_ref_line, retry_step, BatchError,
    BatchRequest, RetryStep, UpstreamReply, RETRY_AFTER_FINETUNING,
};
use aur_mirror_meta::types::{
    GqlFetchSrcInfoData, GqlFetchSrcInfoObject, GqlFetchSrcInfoResponse, GraphQLError,
};

fn reply(success: bool, retry_after: Option<&str>, remaining: Option<&str>, reset: Option<&str>) -> UpstreamReply {
    UpstreamReply {
        success,
        retry_after: retry_after.map(|s| s.to_string()),
        ratelimit_remaining: remaining.map(|s| s.to_string()),
        ratelimit_reset: reset.map(|s| s.to_string()),
    }
}

fn response(entries: &[(&str, &str)]) -> GqlFetchSrcInfoResponse {
    GqlFetchSrcInfoResponse {
        data: Some(GqlFetchSrcInfoData {
            repository: entries
                .iter()
                .map(|(k, t)| (k.to_string(), GqlFetchSrcInfoObject { text: t.to_string() }))
                .collect(),
        }),
        errors: None,
    }
}

#[test]
fn ref_line_gives_branch_and_commit() {
    let r = parse_ref_line("003d1671c778dfeab04b64686baf782c5baa2d96b2ec refs/heads/paru");
    assert_eq!(
        r,
        Some(("paru".to_string(), "1671c778dfeab04b64686baf782c5baa2d96b2ec".to_string()))
    );
}

#[test]
fn ref_line_of_main_is_excluded() {
    assert_eq!(parse_ref_line("003f1671c778dfeab04b64686baf782c5baa2d96b2ec refs/heads/main"), None);
}

#[test]
fn ref_line_trims_ascii_and_skips_malformed() {
    let r = parse_ref_line("  003dabc refs/heads/yay\r\n");
    assert_eq!(r, Some(("yay".to_string(), "abc".to_string())));
    assert_eq!(parse_ref_line("0000"), None);
    assert_eq!(parse_ref_line("abc refs/heads/x"), None);
    assert_eq!(parse_ref_line("001e# service=git-upload-pack"), None);
}

#[test]
fn batch_query_lists_each_commit_by_position() {
    let q = build_batch_query(&vec!["c0".to_string(), "c1".to_string()]);
    assert_eq!(
        q,
        "query{repository(owner:\"archlinux\",name:\"aur\"){x0:object(expression:\"c0:.SRCINFO\"){... on Blob{text}}x1:object(expression:\"c1:.SRCINFO\"){... on Blob{text}}}}"
    );
    let empty = build_batch_query(&vec![]);
    assert_eq!(empty, "query{repository(owner:\"archlinux\",name:\"aur\"){}}");
}

#[test]
fn batch_query_numbers_past_ten() {
    let commits: Vec<String> = (0..12).map(|i| format!("c{i}")).collect();
    let q = build_batch_query(&commits);
    assert!(q.contains("x11:object(expression:\"c11:.SRCINFO\")"));
    assert!(q.contains("x10:object(expression:\"c10:.SRCINFO\")"));
}

#[test]
fn batch_texts_keep_input_order_and_fill_gaps() {
    let resp = response(&[("x2", "two"), ("x0", "zero")]);
    let texts = batch_texts(&resp, 3).ok().unwrap();
    assert_eq!(texts, vec!["zero".to_string(), String::new(), "two".to_string()]);
}

#[test]
fn batch_texts_report_errors() {
    let mut resp = response(&[("x0", "zero")]);
    resp.errors = Some(vec![GraphQLError { message: "bad".to_string() }]);
    match batch_texts(&resp, 1) {
        Err(BatchError::Reported { messages }) => assert_eq!(messages, vec!["bad".to_string()]),
        _ => panic!("errors must be reported"),
    }
    let none = GqlFetchSrcInfoResponse { data: None, errors: None };
    assert!(matches!(batch_texts(&none, 1), Err(BatchError::NoData)));
}

#[test]
fn retry_after_then_success_sends_the_same_request_twice() {
    let commits = vec!["c0".to_string(), "c1".to_string()];
    let mut req = BatchRequest::new(&commits);
    let first = req.query().to_string();
    let step = req.on_reply(&reply(false, Some("5"), None, None), 1_000);
    assert_eq!(step, RetryStep::Wait { seconds: 5 + RETRY_AFTER_FINETUNING });
    assert_eq!(step, RetryStep::Wait { seconds: 20 });
    let second = req.query().to_string();
    assert_eq!(first, second);
    let step = req.on_reply(&reply(true, None, None, None), 1_025);
    assert_eq!(step, RetryStep::Accept);
    assert_eq!(req.replies(), 2);
    let texts = req.texts(&response(&[("x0", "a"), ("x1", "b")])).ok().unwrap();
    assert_eq!(texts, vec!["a".to_string(), "b".to_string()]);
}

#[test]
fn retry_after_as_date() {
    // Thu, 01 Jan 1970 00:01:40 GMT is 100 seconds after the epoch.
    let r = reply(false, Some("Thu, 01 Jan 1970 00:01:40 GMT"), None, None);
    assert_eq!(retry_step(&r, 40), RetryStep::Wait { seconds: 75 });
    assert_eq!(retry_step(&r, 200), RetryStep::Wait { seconds: 15 });
    assert_eq!(decide_retry(&r, 40, Some(100)), RetryStep::Wait { seconds: 75 });
}

#[test]
fn retry_after_unreadable_is_fatal() {
    let r = reply(false, Some("soon"), None, None);
    assert_eq!(retry_step(&r, 0), RetryStep::Fail);
    let mut req = BatchRequest::new(&vec!["c0".to_string()]);
    assert_eq!(req.on_reply(&r, 0), RetryStep::Fail);
    assert_eq!(req.replies(), 1);
}

#[test]
fn retry_after_unreadable_falls_back_to_quota() {
    let r = reply(false, Some("soon"), Some("0"), Some("1100"));
    assert_eq!(retry_step(&r, 1_000), RetryStep::Wait { seconds: 115 });
    assert_eq!(decide_retry(&r, 1_000, None), RetryStep::Wait { seconds: 115 });
}

#[test]
fn exhausted_quota_waits_for_reset() {
    let r = reply(false, None, Some("0"), Some("1100"));
    assert_eq!(retry_step(&r, 1_000), RetryStep::Wait { seconds: 115 });
    let no_reset = reply(false, None, Some("0"), None);
    assert_eq!(retry_step(&no_reset, 1_000), RetryStep::Wait { seconds: 15 });
    let past = reply(false, None, Some("0"), Some("10"));
    assert_eq!(retry_step(&past, 1_000), RetryStep::Wait { seconds: 15 });
}

#[test]
fn other_failures_are_fatal() {
    assert_eq!(retry_step(&reply(false, None, None, None), 0), RetryStep::Fail);
    assert_eq!(retry_step(&reply(false, None, Some("12"), Some("5")), 0), RetryStep::Fail);
    assert_eq!(retry_step(&reply(true, Some("5"), None, None), 0), RetryStep::Accept);
}

#[test]
fn huge_retry_after_saturates() {
    let r = reply(false, Some("18446744073709551615"), None, None);
    assert_eq!(retry_step(&r, 0), RetryStep::Wait { seconds: u64::MAX });
}
