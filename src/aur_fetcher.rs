//! What the client of the upstream computes: the branches of a ref
//! advertisement, the batched content query, the order of its answers, and
//! what to do after each reply under the upstream's rate limits.

use vstd::prelude::*;
use crate::srcinfo_parse::strs_view;
use crate::text::{
    chars_eq_str, chars_of, decimal, decimal_string, find_pattern, first_match, parse_u64,
    parse_u64_of, string_between, trim_ascii, trim_bounds,
};
use crate::types::{GqlFetchSrcInfoObject, GqlFetchSrcInfoResponse, GraphQLError};

verus! {

/// Seconds added to every wait that the upstream asks for.
pub const RETRY_AFTER_FINETUNING: u64 = 15;

/// The `(branch, commit)` pair that one line of a ref advertisement names:
/// after ASCII trimming, the part before ` refs/heads/` is a four-digit
/// length prefix and the object id, the part after it the branch. Lines
/// without the marker, with a shorter first part, or for the upstream's own
/// `main` branch name nothing.
pub open spec fn ref_entry_of(line: Seq<char>) -> Option<(Seq<char>, Seq<char>)> {
    let t = trim_ascii(line);
    let m = " refs/heads/"@;
    match first_match(t, m) {
        Some(i) => if i >= 4 && t.subrange(i + m.len(), t.len() as int) != "main"@ {
            Some((t.subrange(i + m.len(), t.len() as int), t.subrange(4, i)))
        } else {
            None
        },
        None => None,
    }
}

/// Reads one line of a ref advertisement into `(branch, commit)`.
pub fn parse_ref_line(line: &str) -> (r: Option<(String, String)>)
    ensures
        match r {
            Some(e) => ref_entry_of(line@) == Some((e.0@, e.1@)),
            None => ref_entry_of(line@) is None,
        },
{
    let v = chars_of(line);
    let n = v.len();
    let (a, b) = trim_bounds(&v, 0, n, true);
    let ghost t = v@.subrange(a as int, b as int);
    assert(v@.subrange(0, n as int) =~= v@);
    let marker = " refs/heads/";
    let pat = chars_of(marker);
    match find_pattern(&v, a, b, &pat) {
        Some(i) => {
            let ghost k = i - a;
            assert(i + pat@.len() <= b) by {
                assert(crate::text::is_first_match(t, pat@, k));
            }
            if i - a < 4 {
                return None;
            }
            let bs = i + pat.len();
            assert(t.subrange(k + pat@.len(), t.len() as int) =~= v@.subrange(
                bs as int,
                b as int,
            ));
            assert(t.subrange(4, k) =~= v@.subrange(a + 4, i as int));
            if chars_eq_str(&v, bs, b, "main") {
                return None;
            }
            let branch = string_between(line, bs, b);
            let commit = string_between(line, a + 4, i);
            Some((branch, commit))
        },
        None => None,
    }
}

/// The head of every batch query.
pub open spec fn query_head() -> Seq<char> {
    "query{repository(owner:\"archlinux\",name:\"aur\"){"@
}

/// The alias under which the answer for position `i` comes back.
pub open spec fn alias(i: nat) -> Seq<char> {
    "x"@ + decimal(i)
}

/// The request for the description file at `commit`, as position `i`.
pub open spec fn query_item(i: nat, commit: Seq<char>) -> Seq<char> {
    alias(i) + ":object(expression:\""@ + commit + ":.SRCINFO\"){... on Blob{text}}"@
}

pub open spec fn query_items(cs: Seq<Seq<char>>) -> Seq<char>
    decreases cs.len(),
{
    if cs.len() == 0 {
        Seq::empty()
    } else {
        query_items(cs.drop_last()) + query_item((cs.len() - 1) as nat, cs.last())
    }
}

/// The one query that asks for the description files at all of `cs`.
pub open spec fn batch_query(cs: Seq<Seq<char>>) -> Seq<char> {
    query_head() + query_items(cs) + "}}"@
}

/// Builds the batch query for `commits`, position by position.
pub fn build_batch_query(commits: &Vec<String>) -> (r: String)
    ensures
        r@ == batch_query(strs_view(commits@)),
{
    let ghost cs = strs_view(commits@);
    let mut q = String::from_str("query{repository(owner:\"archlinux\",name:\"aur\"){");
    let mut i: usize = 0;
    assert(cs.subrange(0, 0) =~= Seq::<Seq<char>>::empty());
    while i < commits.len()
        invariant
            i <= commits@.len(),
            cs == strs_view(commits@),
            q@ == query_head() + query_items(cs.subrange(0, i as int)),
        decreases commits@.len() - i,
    {
        let item = String::from_str("x").concat(decimal_string(i as u64).as_str()).concat(
            ":object(expression:\"",
        ).concat(commits[i].as_str()).concat(":.SRCINFO\"){... on Blob{text}}");
        assert(item@ == query_item(i as nat, cs[i as int]));
        assert(cs.subrange(0, i + 1).drop_last() =~= cs.subrange(0, i as int));
        q.append(item.as_str());
        assert(q@ =~= query_head() + query_items(cs.subrange(0, i + 1)));
        i = i + 1;
    }
    assert(cs.subrange(0, i as int) =~= cs);
    q.append("}}");
    q
}

/// Why a batch response carries no texts.
pub enum BatchError {
    /// The upstream reported errors; their messages.
    Reported { messages: Vec<String> },
    /// The response holds neither errors nor data.
    NoData,
}

pub open spec fn repo_view(r: Seq<(String, GqlFetchSrcInfoObject)>) -> Seq<(Seq<char>, Seq<char>)> {
    r.map_values(|e: (String, GqlFetchSrcInfoObject)| (e.0@, e.1.text@))
}

pub open spec fn messages_view(es: Seq<GraphQLError>) -> Seq<Seq<char>> {
    es.map_values(|e: GraphQLError| e.message@)
}

pub open spec fn is_first_entry(es: Seq<(Seq<char>, Seq<char>)>, key: Seq<char>, i: int) -> bool {
    &&& 0 <= i < es.len()
    &&& es[i].0 == key
    &&& forall|j: int| 0 <= j < i ==> #[trigger] es[j].0 != key
}

/// The text under `key`, or the empty text where no entry has that key.
pub open spec fn text_under(es: Seq<(Seq<char>, Seq<char>)>, key: Seq<char>) -> Seq<char> {
    if exists|i: int| is_first_entry(es, key, i) {
        es[choose|i: int| is_first_entry(es, key, i)].1
    } else {
        Seq::empty()
    }
}

fn text_for(repo: &Vec<(String, GqlFetchSrcInfoObject)>, key: &String) -> (r: String)
    ensures
        r@ == text_under(repo_view(repo@), key@),
{
    let ghost es = repo_view(repo@);
    let mut i: usize = 0;
    while i < repo.len()
        invariant
            i <= repo@.len(),
            es == repo_view(repo@),
            forall|j: int| 0 <= j < i ==> #[trigger] es[j].0 != key@,
        decreases repo@.len() - i,
    {
        if repo[i].0 == *key {
            proof {
                assert(is_first_entry(es, key@, i as int));
                let c = choose|c: int| is_first_entry(es, key@, c);
                if c < i {
                    assert(es[c].0 != key@);
                } else if c > i {
                    assert(es[i as int].0 != key@);
                }
            }
            return repo[i].1.text.clone();
        }
        i = i + 1;
    }
    assert forall|c: int| !is_first_entry(es, key@, c) by {
        if 0 <= c < es.len() {
            assert(es[c].0 != key@);
        }
    }
    String::new()
}

/// The texts of a batch response for positions `0..n`, in that order; a
/// position that the response leaves out has the empty text.
pub fn batch_texts(response: &GqlFetchSrcInfoResponse, n: usize) -> (r: Result<
    Vec<String>,
    BatchError,
>)
    ensures
        match r {
            Ok(texts) => {
                &&& response.errors is None
                &&& response.data is Some
                &&& texts@.len() == n
                &&& forall|i: int|
                    0 <= i < n ==> #[trigger] texts@[i]@ == text_under(
                        repo_view(response.data->0.repository@),
                        alias(i as nat),
                    )
            },
            Err(BatchError::Reported { messages }) => {
                &&& response.errors is Some
                &&& strs_view(messages@) == messages_view(response.errors->0@)
            },
            Err(BatchError::NoData) => response.errors is None && response.data is None,
        },
{
    match &response.errors {
        Some(errors) => {
            let mut messages: Vec<String> = Vec::new();
            let mut i: usize = 0;
            while i < errors.len()
                invariant
                    i <= errors@.len(),
                    strs_view(messages@) == messages_view(errors@).subrange(0, i as int),
                decreases errors@.len() - i,
            {
                let ghost before = messages@;
                messages.push(errors[i].message.clone());
                assert(strs_view(messages@) =~= strs_view(before).push(errors@[i as int].message@));
                assert(strs_view(messages@) =~= messages_view(errors@).subrange(0, i + 1));
                i = i + 1;
            }
            assert(messages_view(errors@).subrange(0, i as int) =~= messages_view(errors@));
            return Err(BatchError::Reported { messages });
        },
        None => {},
    }
    match &response.data {
        Some(data) => {
            let mut texts: Vec<String> = Vec::new();
            let mut i: usize = 0;
            while i < n
                invariant
                    i <= n,
                    texts@.len() == i,
                    forall|j: int|
                        0 <= j < i ==> #[trigger] texts@[j]@ == text_under(
                            repo_view(data.repository@),
                            alias(j as nat),
                        ),
                decreases n - i,
            {
                let key = String::from_str("x").concat(decimal_string(i as u64).as_str());
                texts.push(text_for(&data.repository, &key));
                i = i + 1;
            }
            Ok(texts)
        },
        None => Err(BatchError::NoData),
    }
}

} // verus!

verus! {

/// What a reply of the upstream carries for the retry decision: whether it
/// succeeded, and its rate-limit headers as text.
pub struct UpstreamReply {
    pub success: bool,
    pub retry_after: Option<String>,
    pub ratelimit_remaining: Option<String>,
    pub ratelimit_reset: Option<String>,
}

/// What to do after a reply.
#[derive(Debug, Clone, Copy, PartialEq, Eq, Structural)]
pub enum RetryStep {
    /// Take the reply.
    Accept,
    /// Sleep this many seconds, then send the same request again.
    Wait { seconds: u64 },
    /// Give up: the reply is an error and asks for no retry.
    Fail,
}

pub open spec fn opt_view(o: Option<String>) -> Option<Seq<char>> {
    match o {
        Some(s) => Some(s@),
        None => None,
    }
}

/// `x` held to the range of `u64`.
pub open spec fn sat_u64(x: int) -> u64 {
    if x < 0 {
        0
    } else if x > u64::MAX {
        u64::MAX
    } else {
        x as u64
    }
}

/// The epoch seconds of an RFC 2822 date, where `s` is one.
pub uninterp spec fn rfc2822_timestamp(s: Seq<char>) -> Option<i64>;

/// The wait that a `retry-after` text asks for, where it is usable: `N`
/// seconds wait `N` plus the margin; a date (what the text reads as an
/// RFC 2822 date is `date`) waits until then, or not at all where it is
/// past, plus the margin.
pub open spec fn retry_after_wait(retry_after: Seq<char>, now: u64, date: Option<i64>) -> Option<
    u64,
> {
    match parse_u64_of(retry_after) {
        Some(n) => Some(sat_u64(n + RETRY_AFTER_FINETUNING)),
        None => match date {
            Some(t) => Some(
                sat_u64(
                    if t >= now {
                        t - now
                    } else {
                        0
                    } + RETRY_AFTER_FINETUNING,
                ),
            ),
            None => None,
        },
    }
}

/// The decision after a reply, at `now` (epoch seconds), where `date` is what
/// the `retry-after` text reads as an RFC 2822 date. A usable `retry-after`
/// decides the wait. Otherwise a `remaining` of `0` waits until `reset` (or
/// `now` where that is missing or no number), plus the margin. Any other
/// failed reply is fatal: it is not retried.
pub open spec fn retry_decision(
    success: bool,
    retry_after: Option<Seq<char>>,
    remaining: Option<Seq<char>>,
    reset: Option<Seq<char>>,
    now: u64,
    date: Option<i64>,
) -> RetryStep {
    if success {
        RetryStep::Accept
    } else if retry_after is Some && retry_after_wait(retry_after->0, now, date) is Some {
        RetryStep::Wait { seconds: retry_after_wait(retry_after->0, now, date)->0 }
    } else if remaining == Some("0"@) {
        let t: int = match reset {
            Some(r) => match parse_u64_of(r) {
                Some(v) => v as int,
                None => now as int,
            },
            None => now as int,
        };
        RetryStep::Wait {
            seconds: sat_u64(if t >= now {
                t - now
            } else {
                0
            } + RETRY_AFTER_FINETUNING),
        }
    } else {
        RetryStep::Fail
    }
}

/// Relies on chrono's `DateTime::parse_from_rfc2822`, read as epoch seconds
/// by `DateTime::timestamp`: the result depends on the text alone.
#[verifier::external_body]
fn parse_rfc2822(s: &str) -> (r: Option<i64>)
    ensures
        r == rfc2822_timestamp(s@),
{
    chrono::DateTime::parse_from_rfc2822(s).ok().map(|d| d.timestamp())
}

/// The decision after `reply` at `now`, given what its `retry-after` reads
/// as an RFC 2822 date.
pub fn decide_retry(reply: &UpstreamReply, now: u64, date: Option<i64>) -> (r: RetryStep)
    ensures
        r == retry_decision(
            reply.success,
            opt_view(reply.retry_after),
            opt_view(reply.ratelimit_remaining),
            opt_view(reply.ratelimit_reset),
            now,
            date,
        ),
{
    if reply.success {
        return RetryStep::Accept;
    }
    match &reply.retry_after {
        Some(ra) => {
            match parse_u64(ra.as_str()) {
                Some(n) => {
                    let s = if n > u64::MAX - RETRY_AFTER_FINETUNING {
                        u64::MAX
                    } else {
                        n + RETRY_AFTER_FINETUNING
                    };
                    return RetryStep::Wait { seconds: s };
                },
                None => {
                    match date {
                        Some(t) => {
                            let gap: u64 = if t >= 0 && t as u64 >= now {
                                t as u64 - now
                            } else {
                                0
                            };
                            let s = if gap > u64::MAX - RETRY_AFTER_FINETUNING {
                                u64::MAX
                            } else {
                                gap + RETRY_AFTER_FINETUNING
                            };
                            return RetryStep::Wait { seconds: s };
                        },
                        None => {},
                    }
                },
            }
        },
        None => {},
    }
    let exhausted = match &reply.ratelimit_remaining {
        Some(rem) => {
            let v = chars_of(rem.as_str());
            let e = chars_eq_str(&v, 0, v.len(), "0");
            assert(v@.subrange(0, v@.len() as int) =~= rem@);
            e
        },
        None => false,
    };
    if !exhausted {
        return RetryStep::Fail;
    }
    let reset = match &reply.ratelimit_reset {
        Some(r) => match parse_u64(r.as_str()) {
            Some(v) => v,
            None => now,
        },
        None => now,
    };
    let gap = if reset >= now {
        reset - now
    } else {
        0
    };
    let s = if gap > u64::MAX - RETRY_AFTER_FINETUNING {
        u64::MAX
    } else {
        gap + RETRY_AFTER_FINETUNING
    };
    RetryStep::Wait { seconds: s }
}

/// The decision after `reply` at `now`.
pub fn retry_step(reply: &UpstreamReply, now: u64) -> (r: RetryStep)
    ensures
        r == retry_decision(
            reply.success,
            opt_view(reply.retry_after),
            opt_view(reply.ratelimit_remaining),
            opt_view(reply.ratelimit_reset),
            now,
            match reply.retry_after {
                Some(ra) => rfc2822_timestamp(ra@),
                None => None,
            },
        ),
{
    let date = match &reply.retry_after {
        Some(ra) => parse_rfc2822(ra.as_str()),
        None => None,
    };
    decide_retry(reply, now, date)
}

/// One batched fetch from first send to accepted reply: the query, fixed
/// when the batch is made, and the number of replies seen so far.
pub struct BatchRequest {
    query: String,
    count: usize,
    replies: u64,
}

pub struct BatchRequestView {
    pub query: Seq<char>,
    pub count: nat,
    pub replies: nat,
}

impl View for BatchRequest {
    type V = BatchRequestView;

    closed spec fn view(&self) -> BatchRequestView {
        BatchRequestView {
            query: self.query@,
            count: self.count as nat,
            replies: self.replies as nat,
        }
    }
}

impl BatchRequest {
    /// The request for the description files at `commits`.
    pub fn new(commits: &Vec<String>) -> (r: BatchRequest)
        ensures
            r@.query == batch_query(strs_view(commits@)),
            r@.count == commits@.len(),
            r@.replies == 0,
    {
        BatchRequest { query: build_batch_query(commits), count: commits.len(), replies: 0 }
    }

    /// The query to send; the same text on every attempt.
    pub fn query(&self) -> (r: &str)
        ensures
            r@ == self@.query,
    {
        self.query.as_str()
    }

    /// How many replies were seen, that is how many requests were sent.
    pub fn replies(&self) -> (r: u64)
        ensures
            r == self@.replies,
    {
        self.replies
    }

    /// Records a reply at `now` and says what to do next; the query stays.
    pub fn on_reply(&mut self, reply: &UpstreamReply, now: u64) -> (r: RetryStep)
        ensures
            final(self)@.query == old(self)@.query,
            final(self)@.count == old(self)@.count,
            final(self)@.replies == if old(self)@.replies < u64::MAX {
                old(self)@.replies + 1
            } else {
                old(self)@.replies
            },
            r == retry_decision(
                reply.success,
                opt_view(reply.retry_after),
                opt_view(reply.ratelimit_remaining),
                opt_view(reply.ratelimit_reset),
                now,
                match reply.retry_after {
                    Some(ra) => rfc2822_timestamp(ra@),
                    None => None,
                },
            ),
    {
        if self.replies < u64::MAX {
            self.replies = self.replies + 1;
        }
        retry_step(reply, now)
    }

    /// The texts of the accepted response, one for each commit of the batch.
    pub fn texts(&self, response: &GqlFetchSrcInfoResponse) -> (r: Result<Vec<String>, BatchError>)
        ensures
            match r {
                Ok(texts) => {
                    &&& response.errors is None
                    &&& response.data is Some
                    &&& texts@.len() == self@.count
                    &&& forall|i: int|
                        0 <= i < self@.count ==> #[trigger] texts@[i]@ == text_under(
                            repo_view(response.data->0.repository@),
                            alias(i as nat),
                        )
                },
                Err(BatchError::Reported { messages }) => {
                    &&& response.errors is Some
                    &&& strs_view(messages@) == messages_view(response.errors->0@)
                },
                Err(BatchError::NoData) => response.errors is None && response.data is None,
            },
    {
        batch_texts(response, self.count)
    }
}

} // verus!
