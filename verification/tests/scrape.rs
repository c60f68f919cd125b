use dsp_chain::scrape::{retry_step, FetchDecision, FetchEvent, RetryRequest, MAX_RETRIES};

#[test]
fn a_found_table_succeeds_at_once() {
    assert_eq!(retry_step(0, FetchEvent::TableFound), FetchDecision::Succeed);
    assert_eq!(retry_step(3, FetchEvent::TableFound), FetchDecision::Succeed);
}

#[test]
fn failures_retry_until_the_limit() {
    assert_eq!(
        retry_step(0, FetchEvent::TableMissing),
        FetchDecision::RetryAfterDelay { retries: 1 }
    );
    assert_eq!(
        retry_step(2, FetchEvent::RequestFailed),
        FetchDecision::RetryAfterDelay { retries: 3 }
    );
    assert_eq!(
        retry_step(MAX_RETRIES, FetchEvent::TableMissing),
        FetchDecision::GiveUpMissingTable
    );
    assert_eq!(
        retry_step(MAX_RETRIES, FetchEvent::RequestFailed),
        FetchDecision::GiveUpRequestError
    );
}

#[test]
fn retry_request_keeps_its_url() {
    let r = RetryRequest::new("https://dsp-wiki.com/Iron_Ingot");
    assert_eq!(r.url, "https://dsp-wiki.com/Iron_Ingot");
}
