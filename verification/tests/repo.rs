use github_label_feed::error::Error;
use github_label_feed::{invalid_repo_message, parse_repo};

#[test]
fn parse_repo_splits_owner_and_name() {
    assert_eq!(parse_repo("acme/widgets"), Ok((String::from("acme"), String::from("widgets"))));
}

#[test]
fn parse_repo_trims_both_parts() {
    assert_eq!(parse_repo("  acme / widgets\n"), Ok((String::from("acme"), String::from("widgets"))));
}

#[test]
fn parse_repo_ignores_further_segments() {
    assert_eq!(parse_repo("acme/widgets/issues"), Ok((String::from("acme"), String::from("widgets"))));
}

#[test]
fn parse_repo_accepts_an_empty_name() {
    assert_eq!(parse_repo("acme/"), Ok((String::from("acme"), String::new())));
}

#[test]
fn parse_repo_rejects_a_missing_slash() {
    assert_eq!(parse_repo("acme"), Err(Error::InvalidRepoFormat));
    assert_eq!(parse_repo(""), Err(Error::InvalidRepoFormat));
}

#[test]
fn white_space_is_what_the_standard_library_counts_as_such() {
    let mut count = 0;
    for n in 0..=0x10FFFFu32 {
        if let Some(c) = char::from_u32(n) {
            assert_eq!(github_label_feed::text::is_whitespace(c), c.is_whitespace(), "U+{:04X}", n);
            if c.is_whitespace() {
                count += 1;
            }
        }
    }
    assert_eq!(count, 25);
}

#[test]
fn parse_repo_trims_every_kind_of_white_space() {
    assert_eq!(
        parse_repo("\u{3000}acme\u{a0}/\t\u{2003}widgets\u{85}\r\n"),
        Ok((String::from("acme"), String::from("widgets")))
    );
    assert_eq!(parse_repo(" a b / c d "), Ok((String::from("a b"), String::from("c d"))));
    assert_eq!(parse_repo(" / "), Ok((String::new(), String::new())));
    assert_eq!(parse_repo("/"), Ok((String::new(), String::new())));
    assert_eq!(parse_repo("\u{200b}a/b"), Ok((String::from("\u{200b}a"), String::from("b"))));
}

#[test]
fn the_message_of_an_invalid_repository_quotes_what_was_given() {
    assert_eq!(parse_repo("acme"), Err(Error::InvalidRepoFormat));
    assert_eq!(
        invalid_repo_message("acme"),
        "invalid repo format, expected owner/name: 'acme'"
    );
    assert_eq!(invalid_repo_message(""), "invalid repo format, expected owner/name: ''");
    assert_eq!(
        invalid_repo_message(" a'b "),
        "invalid repo format, expected owner/name: ' a'b '"
    );
}

#[test]
fn every_error_has_its_text() {
    let texts = [
        (Error::InvalidRepoFormat, "invalid repo format, expected owner/name"),
        (Error::StoreFull, "no identifier is left in the store"),
        (Error::UnknownRepository, "a row names a repository that is not stored"),
        (Error::UnknownReference, "a link names an issue or a label that is not stored"),
        (Error::DuplicateKey, "a row with the same key is already stored"),
        (Error::IdentifierInUse, "a row carries an identifier that is in use"),
        (Error::MalformedTimestamp, "failed to parse datetime"),
        (Error::TimeOutOfRange, "a stored time cannot be written as a date"),
        (Error::InvalidIssueState, "Inconsistent database, invalid issue state"),
        (Error::UnbuildableFeed, "Failed to build feed"),
    ];
    for (error, text) in texts {
        assert_eq!(error.message(), text);
    }
}
