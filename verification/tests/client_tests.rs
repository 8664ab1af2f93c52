//! Retrying, error mapping and the requests for children.

use orgnotion::client::{
    after_failure, after_list_failure, after_list_reply, children_url, following_cursor,
    is_retryable, map_error, retry_after_seconds, retry_delay, CallFailure, Delay, ListStep,
    RetryStep, API_BASE, BACKOFF_BASE_MS, MAX_ATTEMPTS,
};
use orgnotion::notion::{Appender, PageJob, PageWriter, Write, NOTION_VERSION};
use orgnotion::ports::{AppendPosition, NotionError};

fn http_error(status: u16) -> CallFailure {
    CallFailure::Http {
        status,
        message: format!("status {status}"),
    }
}

/// Calls until there is a success or no further attempt.
fn with_retry<T>(mut call: impl FnMut() -> Result<T, CallFailure>) -> Result<T, NotionError> {
    let mut attempt = 0;
    loop {
        attempt += 1;
        match call() {
            Ok(value) => return Ok(value),
            Err(failure) => match after_failure(0, attempt, failure) {
                RetryStep::Retry(delay) => assert_eq!(delay, Delay { secs: 0, millis: 0 }),
                RetryStep::GiveUp(e) => return Err(e),
            },
        }
    }
}

/// Asks until there is an answer: each reply is a status, what `Retry-After`
/// says, and a body, or a message where no answer came.
fn list_with(
    replies: Vec<Result<(u16, Option<&str>, &str), &str>>,
) -> (Result<String, NotionError>, usize) {
    let mut attempt = 0;
    for reply in &replies {
        attempt += 1;
        let step = match reply {
            Ok((status, retry_after, body)) => after_list_reply(
                1,
                attempt,
                *status,
                retry_after.and_then(retry_after_seconds),
                (*body).to_string(),
            ),
            Err(message) => after_list_failure(1, attempt, (*message).to_string()),
        };
        match step {
            ListStep::Done(body) => return (Ok(body), attempt as usize),
            ListStep::Fail(e) => return (Err(e), attempt as usize),
            ListStep::Retry(_) => {}
        }
    }
    panic!("another attempt was asked for after {attempt}");
}

#[test]
fn with_retry_returns_first_success() {
    let mut calls = 0;
    let result = with_retry(|| {
        calls += 1;
        Ok(7)
    });
    assert_eq!(result.unwrap(), 7);
    assert_eq!(calls, 1);
}

#[test]
fn with_retry_retries_retryable_errors_until_success() {
    let mut calls = 0;
    let result = with_retry(|| {
        calls += 1;
        if calls < 3 {
            Err(http_error(503))
        } else {
            Ok("done")
        }
    });
    assert_eq!(result.unwrap(), "done");
    assert_eq!(calls, 3);
}

#[test]
fn with_retry_fails_fast_on_non_retryable_error() {
    let mut calls = 0;
    let result: Result<(), _> = with_retry(|| {
        calls += 1;
        Err(http_error(404))
    });
    assert!(matches!(result, Err(NotionError::Api { status: 404, .. })));
    assert_eq!(calls, 1);
}

#[test]
fn with_retry_gives_up_after_max_attempts() {
    let mut calls = 0;
    let result: Result<(), _> = with_retry(|| {
        calls += 1;
        Err(CallFailure::Network("connection reset".to_string()))
    });
    assert!(matches!(result, Err(NotionError::Transport(_))));
    assert_eq!(calls, MAX_ATTEMPTS);
}

#[test]
fn retryable_statuses_are_429_and_5xx_and_network() {
    assert!(is_retryable(&http_error(429)));
    assert!(is_retryable(&http_error(500)));
    assert!(is_retryable(&http_error(599)));
    assert!(is_retryable(&CallFailure::Network(String::new())));
    assert!(!is_retryable(&http_error(400)));
    assert!(!is_retryable(&http_error(600)));
    assert!(!is_retryable(&CallFailure::Other(String::new())));
    assert!(!is_retryable(&CallFailure::Json(String::new())));
}

#[test]
fn errors_map_onto_the_port_error_kinds() {
    assert!(matches!(
        map_error(http_error(401)),
        NotionError::Api { status: 401, .. }
    ));
    assert!(matches!(
        map_error(CallFailure::Network("down".to_string())),
        NotionError::Transport(m) if m == "down"
    ));
    let serde_err = serde_json::from_str::<u8>("not json").unwrap_err();
    assert!(matches!(
        map_error(CallFailure::Json(serde_err.to_string())),
        NotionError::UnexpectedShape(_)
    ));
    assert!(matches!(
        map_error(CallFailure::Other("p".to_string())),
        NotionError::Transport(_)
    ));
}

#[test]
fn list_children_asks_for_the_page_behind_the_cursor() {
    assert_eq!(
        children_url("http://h", "block-1", &Some("cursor-abc".to_string())),
        "http://h/blocks/block-1/children?page_size=100&start_cursor=cursor-abc"
    );
    assert_eq!(
        children_url(API_BASE, "b", &None),
        "https://api.notion.com/v1/blocks/b/children?page_size=100"
    );
    assert_eq!(NOTION_VERSION, "2026-03-11");
}

#[test]
fn list_children_without_more_has_no_cursor() {
    assert_eq!(following_cursor(false, None), None);
    assert_eq!(following_cursor(false, Some("stale".to_string())), None);
    assert_eq!(
        following_cursor(true, Some("cursor-xyz".to_string())),
        Some("cursor-xyz".to_string())
    );
    assert_eq!(following_cursor(true, None), None);
}

#[test]
fn retries_on_429_honoring_retry_after_then_succeeds() {
    let (result, attempts) = list_with(vec![Ok((429, Some("0"), "{}")), Ok((200, None, "ok"))]);
    assert_eq!(result.unwrap(), "ok");
    assert_eq!(attempts, 2);
    assert_eq!(
        after_list_reply(1, 1, 429, Some(7), String::new()),
        ListStep::Retry(Delay { secs: 7, millis: 0 })
    );
}

#[test]
fn retries_on_500_then_gives_up_with_api_error() {
    let (result, attempts) = list_with(vec![Ok((500, None, r#"{"message":"boom"}"#)); 5]);
    match result.unwrap_err() {
        NotionError::Api { status, body } => {
            assert_eq!(status, 500);
            assert!(body.contains("boom"));
        }
        other => panic!("expected Api error, got {other:?}"),
    }
    assert_eq!(attempts, 5);
}

#[test]
fn auth_failure_is_not_retried_and_hints_at_token() {
    let (result, attempts) = list_with(vec![Ok((401, None, r#"{"message":"unauthorized"}"#))]);
    let message = result.unwrap_err().message();
    assert!(message.contains("401"), "got: {message}");
    assert!(message.contains("NOTION_TOKEN"), "got: {message}");
    assert_eq!(attempts, 1);
}

#[test]
fn transport_failure_surfaces_after_retries() {
    let (result, attempts) = list_with(vec![Err("refused"); 5]);
    assert!(matches!(result, Err(NotionError::Transport(_))));
    assert_eq!(attempts, 5);
}

#[test]
fn delays_double_from_the_base() {
    assert_eq!(BACKOFF_BASE_MS, 300);
    let millis: Vec<u64> = (1..MAX_ATTEMPTS)
        .map(|a| retry_delay(BACKOFF_BASE_MS, a, None).millis)
        .collect();
    assert_eq!(millis, vec![300, 600, 1200, 2400]);
    assert_eq!(
        retry_delay(300, 4, Some(2)),
        Delay { secs: 2, millis: 0 }
    );
}

#[test]
fn retry_after_is_a_plain_number_of_seconds() {
    assert_eq!(retry_after_seconds("0"), Some(0));
    assert_eq!(retry_after_seconds(" 12 "), Some(12));
    assert_eq!(retry_after_seconds("+5"), Some(5));
    assert_eq!(retry_after_seconds(""), None);
    assert_eq!(retry_after_seconds("+"), None);
    assert_eq!(retry_after_seconds("-1"), None);
    assert_eq!(retry_after_seconds("1.5"), None);
    assert_eq!(retry_after_seconds("Wed, 21 Oct 2026 07:28:00 GMT"), None);
    assert_eq!(retry_after_seconds("18446744073709551615"), Some(u64::MAX));
    assert_eq!(retry_after_seconds("18446744073709551616"), None);
}

#[test]
fn api_failures_read_as_sentences() {
    let api = |status| NotionError::Api {
        status,
        body: "b".to_string(),
    };
    assert_eq!(api(500).message(), "Notion API returned 500: b");
    assert!(api(403).message().contains("shared with the integration"));
    assert_eq!(
        NotionError::Transport("t".to_string()).message(),
        "Notion API request failed: t"
    );
    assert_eq!(
        NotionError::UnexpectedShape("u".to_string()).message(),
        "unexpected response shape from Notion API: u"
    );
}

#[test]
fn chunks_follow_one_another() {
    let mut appender = Appender::new(
        250,
        AppendPosition::After {
            after_id: "h".to_string(),
        },
    );
    let mut sent = vec![];
    while let Some(chunk) = appender.next() {
        let ids = (chunk.from..chunk.to).map(|i| format!("b{i}")).collect();
        sent.push((chunk.from, chunk.to, chunk.position));
        appender.accept(ids);
    }
    let after = |id: &str| AppendPosition::After {
        after_id: id.to_string(),
    };
    assert_eq!(
        sent,
        vec![
            (0, 100, after("h")),
            (100, 200, after("b99")),
            (200, 250, after("b199")),
        ]
    );
    assert!(Appender::new(0, AppendPosition::End).next().is_none());
}

#[test]
fn a_writer_passes_over_writes_without_blocks() {
    let write = |node: usize, n: usize| Write {
        node,
        heading: false,
        blocks: (0..n).map(|_| orgnotion::blocks::Block::Divider).collect(),
        position: AppendPosition::End,
    };
    let job = PageJob {
        page_id: "p".to_string(),
        writes: vec![write(0, 0), write(1, 2), write(2, 0), write(3, 1)],
    };
    let mut writer = PageWriter::new(job);
    let mut order = vec![];
    while let Some(request) = writer.next() {
        order.push((request.write, request.chunk.from, request.chunk.to));
        let ids = (request.chunk.from..request.chunk.to)
            .map(|i| format!("{}-{i}", request.write))
            .collect();
        writer.accept(ids);
    }
    assert_eq!(order, vec![(1, 0, 2), (3, 0, 1)]);
    assert_eq!(
        writer.first_ids,
        vec![
            None,
            Some("1-0".to_string()),
            None,
            Some("3-0".to_string())
        ]
    );
}
