use github_label_feed::query::graphql::{query, RetryPolicy, RetryStrategy};
use github_label_feed::query::issues::IssueState;

#[test]
fn from_integer_reads_open_and_closed() {
    assert!(matches!(IssueState::from_integer(0), Some(IssueState::OPEN)));
    assert!(matches!(IssueState::from_integer(1), Some(IssueState::CLOSED)));
}

#[test]
fn from_integer_reads_no_other_integer() {
    assert!(IssueState::from_integer(2).is_none());
    assert!(IssueState::from_integer(-1).is_none());
    assert!(IssueState::from_integer(i64::MAX).is_none());
    assert!(IssueState::from_integer(i64::MIN).is_none());
}

#[test]
fn to_integer_writes_each_state() {
    assert_eq!(IssueState::OPEN.to_integer(), 0);
    assert_eq!(IssueState::CLOSED.to_integer(), 1);
    assert_eq!(IssueState::Other(String::from("DRAFT")).to_integer(), 2);
    assert_eq!(IssueState::Other(String::new()).to_integer(), 2);
}

#[test]
fn to_string_names_open_and_closed_only() {
    assert_eq!(IssueState::OPEN.to_string(), Some(String::from("open")));
    assert_eq!(IssueState::CLOSED.to_string(), Some(String::from("closed")));
    assert_eq!(IssueState::Other(String::from("DRAFT")).to_string(), None);
}

#[test]
fn a_stored_state_is_read_back() {
    for state in [IssueState::OPEN, IssueState::CLOSED] {
        let name = state.to_string();
        let read = IssueState::from_integer(state.to_integer()).unwrap();
        assert_eq!(read.to_string(), name);
    }
}

#[test]
fn a_failing_call_sleeps_the_whole_schedule_and_then_gives_up() {
    let schedule = [5u64, 50, 250, 1000, 5000, 25000];
    let mut strategy = RetryStrategy;
    let mut attempts = 0usize;
    let mut slept = Vec::new();
    loop {
        attempts += 1;
        match strategy.handle(attempts) {
            RetryPolicy::WaitRetry(ms) => slept.push(ms),
            RetryPolicy::ForwardError => break,
        }
    }
    assert_eq!(attempts, schedule.len() + 1);
    assert_eq!(slept, schedule);
    for n in 1..=schedule.len() {
        assert_eq!(RetryStrategy.handle(n), RetryPolicy::WaitRetry(schedule[n - 1]));
    }
}

#[test]
fn attempts_are_counted_anew_for_every_call() {
    let mut strategy = RetryStrategy;
    assert_eq!(strategy.handle(7), RetryPolicy::ForwardError);
    assert_eq!(strategy.handle(1), RetryPolicy::WaitRetry(5));
    assert_eq!(strategy.handle(0), RetryPolicy::ForwardError);
    assert_eq!(strategy.handle(usize::MAX), RetryPolicy::ForwardError);
}

#[test]
fn a_request_carries_the_credential() {
    let request = query("secret");
    assert_eq!(request.endpoint, "https://api.github.com/graphql");
    assert_eq!(request.timeout_secs, 60);
    assert_eq!(request.user_agent, "github.com/tilpner/github-label-feed");
    assert_eq!(request.bearer, "secret");
}

#[test]
fn from_name_reads_the_names_of_the_remote() {
    assert!(matches!(IssueState::from_name(String::from("OPEN")), IssueState::OPEN));
    assert!(matches!(IssueState::from_name(String::from("CLOSED")), IssueState::CLOSED));
    match IssueState::from_name(String::from("DRAFT")) {
        IssueState::Other(name) => assert_eq!(name, "DRAFT"),
        _ => panic!("a name that is not known must be kept"),
    }
    assert!(matches!(IssueState::from_name(String::from("open")), IssueState::Other(_)));
    assert!(matches!(IssueState::from_name(String::new()), IssueState::Other(_)));
}
