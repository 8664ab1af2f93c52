//! The decisions of the Notion client: which failures are tried again, after
//! what delay, and what is reported when they are not.

use crate::ports::{NotionError, NotionErrorView};
use crate::text;
use vstd::arithmetic::power2;
use vstd::prelude::*;

verus! {

/// Where the API is.
pub const API_BASE: &'static str = "https://api.notion.com/v1";

/// The number of times a call is made before it is given up.
pub const MAX_ATTEMPTS: u32 = 5;

/// The delay before the second attempt, in milliseconds.
pub const BACKOFF_BASE_MS: u64 = 300;

/// How a call to the API failed.
#[derive(Debug, Clone, PartialEq, Eq)]
pub enum CallFailure {
    /// The API answered with a status that is no success.
    Http { status: u16, message: String },
    /// No answer came.
    Network(String),
    /// The answer was not the JSON that was expected.
    Json(String),
    /// Anything else.
    Other(String),
}

/// The model of a failed call.
pub enum FailureView {
    Http { status: u16, message: Seq<char> },
    Network(Seq<char>),
    Json(Seq<char>),
    Other(Seq<char>),
}

impl DeepView for CallFailure {
    type V = FailureView;

    open spec fn deep_view(&self) -> FailureView {
        match self {
            CallFailure::Http { status, message } => FailureView::Http {
                status: *status,
                message: message@,
            },
            CallFailure::Network(m) => FailureView::Network(m@),
            CallFailure::Json(m) => FailureView::Json(m@),
            CallFailure::Other(m) => FailureView::Other(m@),
        }
    }
}

/// Whether a status is worth another attempt: too many requests, or a failure
/// of the server.
pub open spec fn status_retryable(status: u16) -> bool {
    status == 429 || 500 <= status < 600
}

/// Whether a status is a success.
pub open spec fn status_success(status: u16) -> bool {
    200 <= status < 300
}

/// Whether a failed call is worth another attempt.
pub open spec fn failure_retryable(f: FailureView) -> bool {
    match f {
        FailureView::Http { status, .. } => status_retryable(status),
        FailureView::Network(_) => true,
        _ => false,
    }
}

/// What a failed call is reported as.
pub open spec fn failure_error(f: FailureView) -> NotionErrorView {
    match f {
        FailureView::Http { status, message } => NotionErrorView::Api { status, body: message },
        FailureView::Network(m) => NotionErrorView::Transport(m),
        FailureView::Json(m) => NotionErrorView::UnexpectedShape(m),
        FailureView::Other(m) => NotionErrorView::Transport(m),
    }
}

/// Whether a failed call is worth another attempt.
pub fn is_retryable(failure: &CallFailure) -> (r: bool)
    ensures
        r == failure_retryable(failure.deep_view()),
{
    match failure {
        CallFailure::Http { status, .. } => *status == 429 || (500 <= *status && *status < 600),
        CallFailure::Network(_) => true,
        _ => false,
    }
}

/// What a failed call is reported as.
pub fn map_error(failure: CallFailure) -> (r: NotionError)
    ensures
        r.deep_view() == failure_error(failure.deep_view()),
{
    match failure {
        CallFailure::Http { status, message } => NotionError::Api { status, body: message },
        CallFailure::Network(m) => NotionError::Transport(m),
        CallFailure::Json(m) => NotionError::UnexpectedShape(m),
        CallFailure::Other(m) => NotionError::Transport(m),
    }
}

/// A delay of some seconds and milliseconds.
#[derive(Debug, Clone, Copy, PartialEq, Eq, Structural)]
pub struct Delay {
    pub secs: u64,
    pub millis: u64,
}

/// How often the base delay is doubled before the attempt that follows
/// attempt `attempt`.
pub open spec fn doublings(attempt: u32) -> nat {
    if attempt == 0 {
        0
    } else {
        (attempt - 1) as nat
    }
}

/// The delay after attempt `attempt`: what the API asked for, or else the base
/// delay, doubled with every attempt.
pub open spec fn delay_spec(base_ms: u64, attempt: u32, retry_after_secs: Option<u64>) -> Delay {
    match retry_after_secs {
        Some(secs) => Delay { secs, millis: 0 },
        None => Delay { secs: 0, millis: (base_ms * power2::pow2(doublings(attempt))) as u64 },
    }
}

/// The delay after attempt `attempt`.
pub fn retry_delay(base_ms: u64, attempt: u32, retry_after_secs: Option<u64>) -> (r: Delay)
    requires
        retry_after_secs is None ==> base_ms * power2::pow2(doublings(attempt)) <= u64::MAX,
    ensures
        r == delay_spec(base_ms, attempt, retry_after_secs),
{
    match retry_after_secs {
        Some(secs) => Delay { secs, millis: 0 },
        None => {
            let n: u32 = if attempt == 0 {
                0
            } else {
                attempt - 1
            };
            if base_ms == 0 {
                assert(0 * power2::pow2(doublings(attempt)) == 0) by (nonlinear_arith);
                return Delay { secs: 0, millis: 0 };
            }
            let mut millis: u64 = base_ms;
            let mut i: u32 = 0;
            proof {
                power2::lemma2_to64();
            }
            while i < n
                invariant
                    i <= n,
                    n == doublings(attempt),
                    base_ms > 0,
                    millis == base_ms * power2::pow2(i as nat),
                    base_ms * power2::pow2(n as nat) <= u64::MAX,
                decreases n - i,
            {
                proof {
                    power2::lemma_pow2_unfold((i + 1) as nat);
                    lemma_pow2_grows((i + 1) as nat, n as nat);
                    assert(base_ms * (2 * power2::pow2(i as nat)) == 2 * (base_ms * power2::pow2(i as nat)))
                        by (nonlinear_arith);
                    assert(base_ms * power2::pow2((i + 1) as nat) <= base_ms * power2::pow2(n as nat))
                        by (nonlinear_arith)
                        requires
                            power2::pow2((i + 1) as nat) <= power2::pow2(n as nat),
                    ;
                }
                millis = millis * 2;
                i = i + 1;
            }
            Delay { secs: 0, millis }
        },
    }
}

proof fn lemma_pow2_grows(a: nat, b: nat)
    requires
        a <= b,
    ensures
        power2::pow2(a) <= power2::pow2(b),
    decreases b - a,
{
    if a < b {
        power2::lemma_pow2_unfold((a + 1) as nat);
        lemma_pow2_grows(a + 1, b);
    }
}

/// What to do after a failed call.
#[derive(Debug, Clone, PartialEq, Eq)]
pub enum RetryStep {
    /// Wait, and make the call again.
    Retry(Delay),
    /// Report the failure.
    GiveUp(NotionError),
}

/// Whether another attempt is made after attempt `attempt` failed.
pub open spec fn tries_again(attempt: u32, f: FailureView) -> bool {
    failure_retryable(f) && attempt < MAX_ATTEMPTS
}

/// A base delay that is small enough to be doubled for every attempt.
pub open spec fn base_fits(base_ms: u64) -> bool {
    base_ms * 8 <= u64::MAX
}

proof fn lemma_delay_fits(base_ms: u64, attempt: u32)
    requires
        base_fits(base_ms),
        attempt < MAX_ATTEMPTS,
    ensures
        base_ms * power2::pow2(doublings(attempt)) <= u64::MAX,
{
    power2::lemma2_to64();
    lemma_pow2_grows(doublings(attempt), 3);
    assert(power2::pow2(3) == 8);
    assert(base_ms * power2::pow2(doublings(attempt)) <= base_ms * 8) by (nonlinear_arith)
        requires
            power2::pow2(doublings(attempt)) <= 8,
    ;
}

/// What to do after attempt `attempt` of a call failed.
pub fn after_failure(base_ms: u64, attempt: u32, failure: CallFailure) -> (r: RetryStep)
    requires
        base_fits(base_ms),
    ensures
        match r {
            RetryStep::Retry(delay) => tries_again(attempt, failure.deep_view()) && delay
                == delay_spec(base_ms, attempt, None),
            RetryStep::GiveUp(e) => !tries_again(attempt, failure.deep_view()) && e.deep_view()
                == failure_error(failure.deep_view()),
        },
{
    if is_retryable(&failure) && attempt < MAX_ATTEMPTS {
        proof {
            lemma_delay_fits(base_ms, attempt);
        }
        RetryStep::Retry(retry_delay(base_ms, attempt, None))
    } else {
        RetryStep::GiveUp(map_error(failure))
    }
}

// ---------------------------------------------------------------------
// Listing children
// ---------------------------------------------------------------------

/// The URL that lists the children of a block.
pub open spec fn children_url_spec(
    base: Seq<char>,
    block_id: Seq<char>,
    cursor: Option<Seq<char>>,
) -> Seq<char> {
    let url = base + "/blocks/"@ + block_id + "/children?page_size=100"@;
    match cursor {
        Some(c) => url + "&start_cursor="@ + c,
        None => url,
    }
}

/// The URL that lists the children of a block, from a cursor on.
pub fn children_url(base: &str, block_id: &str, cursor: &Option<String>) -> (r: String)
    ensures
        r@ == children_url_spec(base@, block_id@, cursor.deep_view()),
{
    let mut url: String = text::concat2(base, "/blocks/");
    url.append(block_id);
    url.append("/children?page_size=100");
    match cursor {
        Some(c) => {
            url.append("&start_cursor=");
            url.append(c.as_str());
        },
        None => {},
    }
    url
}

/// The number that decimal digits stand for.
pub open spec fn digits_value(s: Seq<char>) -> nat
    decreases s.len(),
{
    if s.len() == 0 {
        0
    } else {
        digits_value(s.drop_last()) * 10 + (s.last() as nat - '0' as nat) as nat
    }
}

/// Whether a text is made of decimal digits, at least one.
pub open spec fn is_number(s: Seq<char>) -> bool {
    s.len() > 0 && forall|i: int| 0 <= i < s.len() ==> '0' <= #[trigger] s[i] <= '9'
}

/// The digits of a number that may have a plus sign before it.
pub open spec fn unsigned_part(s: Seq<char>) -> Seq<char> {
    if s.len() > 0 && s[0] == '+' {
        s.skip(1)
    } else {
        s
    }
}

/// The seconds that a `Retry-After` header gives: a whole number that fits 64
/// bits, white space around it aside.
pub open spec fn retry_after_spec(header: Seq<char>) -> Option<u64> {
    let d = unsigned_part(text::trim(header));
    if is_number(d) && digits_value(d) <= u64::MAX {
        Some(digits_value(d) as u64)
    } else {
        None
    }
}

proof fn lemma_digits_grow(s: Seq<char>, k: int)
    requires
        0 <= k <= s.len(),
        is_number(s),
    ensures
        digits_value(s.take(k)) <= digits_value(s),
    decreases s.len() - k,
{
    if k < s.len() {
        lemma_digits_grow(s, k + 1);
        assert(s.take(k + 1).drop_last() =~= s.take(k));
    } else {
        assert(s.take(k) =~= s);
    }
}

/// The seconds that a `Retry-After` header gives.
pub fn retry_after_seconds(header: &str) -> (r: Option<u64>)
    ensures
        r == retry_after_spec(header@),
{
    let t: String = text::trimmed(header);
    let all: Vec<char> = text::chars_of(t.as_str());
    let from: usize = if all.len() > 0 && all[0] == '+' {
        1
    } else {
        0
    };
    let ghost d = unsigned_part(text::trim(header@));
    assert(d =~= all@.skip(from as int));
    if from == all.len() {
        return None;
    }
    let mut value: u64 = 0;
    let mut i: usize = from;
    while i < all.len()
        invariant
            d == all@.skip(from as int),
            d == unsigned_part(text::trim(header@)),
            d.len() > 0,
            from <= i <= all@.len(),
            forall|j: int| 0 <= j < i - from ==> '0' <= #[trigger] d[j] <= '9',
            value == digits_value(d.take(i - from)),
        decreases all.len() - i,
    {
        let c: char = all[i];
        let ghost k = i - from;
        assert(d[k] == c);
        if c < '0' || c > '9' {
            return None;
        }
        let digit: u64 = (c as u32 - '0' as u32) as u64;
        proof {
            assert(d.take(k + 1).drop_last() =~= d.take(k));
            assert(d.take(k + 1).last() == c);
            if is_number(d) {
                lemma_digits_grow(d, k + 1);
            }
        }
        if value > (u64::MAX - digit) / 10 {
            assert(value * 10 + digit > u64::MAX);
            return None;
        }
        value = value * 10 + digit;
        i = i + 1;
    }
    assert(d.take(i - from) =~= d);
    Some(value)
}

/// What to do after a request for children.
#[derive(Debug, Clone, PartialEq, Eq)]
pub enum ListStep {
    /// The answer is here.
    Done(String),
    /// Wait, and ask again.
    Retry(Delay),
    /// Report the failure.
    Fail(NotionError),
}

/// What to do after attempt `attempt` was answered with this status and body.
pub fn after_list_reply(
    base_ms: u64,
    attempt: u32,
    status: u16,
    retry_after: Option<u64>,
    body: String,
) -> (r: ListStep)
    requires
        base_fits(base_ms),
    ensures
        match r {
            ListStep::Done(b) => status_success(status) && b == body,
            ListStep::Retry(delay) => !status_success(status) && status_retryable(status) && attempt
                < MAX_ATTEMPTS && delay == delay_spec(base_ms, attempt, retry_after),
            ListStep::Fail(e) => !status_success(status) && !(status_retryable(status) && attempt
                < MAX_ATTEMPTS) && e.deep_view() == (NotionErrorView::Api { status, body: body@ }),
        },
{
    if 200 <= status && status < 300 {
        return ListStep::Done(body);
    }
    let retryable: bool = status == 429 || (500 <= status && status < 600);
    if retryable && attempt < MAX_ATTEMPTS {
        proof {
            lemma_delay_fits(base_ms, attempt);
        }
        ListStep::Retry(retry_delay(base_ms, attempt, retry_after))
    } else {
        ListStep::Fail(NotionError::Api { status, body })
    }
}

/// What to do after attempt `attempt` got no answer.
pub fn after_list_failure(base_ms: u64, attempt: u32, message: String) -> (r: ListStep)
    requires
        base_fits(base_ms),
    ensures
        match r {
            ListStep::Done(_) => false,
            ListStep::Retry(delay) => attempt < MAX_ATTEMPTS && delay == delay_spec(
                base_ms,
                attempt,
                None,
            ),
            ListStep::Fail(e) => attempt >= MAX_ATTEMPTS && e.deep_view()
                == NotionErrorView::Transport(message@),
        },
{
    if attempt < MAX_ATTEMPTS {
        proof {
            lemma_delay_fits(base_ms, attempt);
        }
        ListStep::Retry(retry_delay(base_ms, attempt, None))
    } else {
        ListStep::Fail(NotionError::Transport(message))
    }
}

/// The cursor of the next page of results: none where the API says that there
/// is no more, whatever cursor it names.
pub fn following_cursor(has_more: bool, next_cursor: Option<String>) -> (r: Option<String>)
    ensures
        r == (if has_more {
            next_cursor
        } else {
            None
        }),
{
    if has_more {
        next_cursor
    } else {
        None
    }
}

// ---------------------------------------------------------------------
// Laws
// ---------------------------------------------------------------------

/// A call that keeps failing is given up after the last attempt, whatever the
/// failure; before that, exactly the retryable failures are tried again.
pub proof fn law_attempts_are_limited(attempt: u32, f: FailureView)
    ensures
        attempt >= MAX_ATTEMPTS ==> !tries_again(attempt, f),
        attempt < MAX_ATTEMPTS ==> (tries_again(attempt, f) <==> failure_retryable(f)),
{
}

/// The first delay is the base delay, and every further one is twice the one
/// before, unless the API asks for another.
pub proof fn law_backoff_doubles(base_ms: u64, attempt: u32)
    requires
        1 <= attempt < MAX_ATTEMPTS - 1,
        base_fits(base_ms),
    ensures
        delay_spec(base_ms, 1, None).millis == base_ms,
        delay_spec(base_ms, (attempt + 1) as u32, None).millis == 2 * delay_spec(
            base_ms,
            attempt,
            None,
        ).millis,
{
    power2::lemma2_to64();
    lemma_delay_fits(base_ms, attempt);
    lemma_delay_fits(base_ms, (attempt + 1) as u32);
    power2::lemma_pow2_unfold(attempt as nat);
    let d = power2::pow2((attempt - 1) as nat);
    assert(base_ms * (2 * d) == 2 * (base_ms * d)) by (nonlinear_arith);
    assert(base_ms * 1 == base_ms);
}

} // verus!
