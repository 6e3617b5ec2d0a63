use mastodon_list_bot::list_manager::{ListManagerTerm, ListManagerTerms};

#[test]
fn parsing() {
    assert_eq!(
        ListManagerTerms::from_str("#mutuals"),
        Ok(ListManagerTerms(vec![ListManagerTerm::Mutuals]))
    );
    assert_eq!(
        ListManagerTerms::from_str("#last_status_at>2d"),
        Ok(ListManagerTerms(vec![ListManagerTerm::LastStatus(2)]))
    );
    assert_eq!(
        ListManagerTerms::from_str("#last_status_at>1w"),
        Ok(ListManagerTerms(vec![ListManagerTerm::LastStatus(7)]))
    );
    assert_eq!(
        ListManagerTerms::from_str("#last_status_at>1m"),
        Ok(ListManagerTerms(vec![ListManagerTerm::LastStatus(30)]))
    );
    assert_eq!(
        ListManagerTerms::from_str("hello #last_status_at>1m"),
        Ok(ListManagerTerms(vec![ListManagerTerm::LastStatus(30)]))
    );
}

#[test]
fn parsing_and() {
    assert_eq!(ListManagerTerms::from_str("hello #").is_err(), true,);
    assert_eq!(
        ListManagerTerms::from_str("hello #last_status_at>1m&mutuals"),
        Ok(ListManagerTerms(vec![
            ListManagerTerm::LastStatus(30),
            ListManagerTerm::Mutuals
        ]))
    );
    assert_eq!(
        ListManagerTerms::from_str("hello #last_status_at>1m & mutuals"),
        Ok(ListManagerTerms(vec![
            ListManagerTerm::LastStatus(30),
            ListManagerTerm::Mutuals
        ]))
    );

    assert_eq!(
        ListManagerTerms::from_str("hello #last_status_at>1m && mutuals"),
        Ok(ListManagerTerms(vec![
            ListManagerTerm::LastStatus(30),
            ListManagerTerm::Mutuals
        ]))
    );
}

#[test]
fn parsing_no_hash_fails() {
    assert!(ListManagerTerms::from_str("mutuals").is_err());
    assert!(ListManagerTerms::from_str("").is_err());
}

#[test]
fn parsing_bad_term_fails() {
    assert!(ListManagerTerms::from_str("#mutual").is_err());
    assert!(ListManagerTerms::from_str("#last_status_at>0d").is_err());
    assert!(ListManagerTerms::from_str("#last_status_at>1x").is_err());
    assert!(ListManagerTerms::from_str("#last_status_at>d").is_err());
}

#[test]
fn parsing_two_digit_count() {
    assert_eq!(
        ListManagerTerms::from_str("#last_status_at>12d"),
        Ok(ListManagerTerms(vec![ListManagerTerm::LastStatus(12)]))
    );
    assert_eq!(
        ListManagerTerms::from_str("#last_status_at>99m"),
        Ok(ListManagerTerms(vec![ListManagerTerm::LastStatus(2970)]))
    );
}

#[test]
fn parsing_stops_at_first_bad_separator_tail() {
    // a separator with no term after it is left unconsumed
    assert_eq!(
        ListManagerTerms::from_str("#mutuals &"),
        Ok(ListManagerTerms(vec![ListManagerTerm::Mutuals]))
    );
    // trailing text after a parsed term is ignored
    assert_eq!(
        ListManagerTerms::from_str("#mutuals rest"),
        Ok(ListManagerTerms(vec![ListManagerTerm::Mutuals]))
    );
}

#[test]
fn parsing_uses_first_hash() {
    // the terms must follow the first `#`; a later `#` is not retried
    assert!(ListManagerTerms::from_str("a # b #mutuals").is_err());
    assert_eq!(
        ListManagerTerms::from_str("lists #mutuals&&&last_status_at>3w"),
        Ok(ListManagerTerms(vec![
            ListManagerTerm::Mutuals,
            ListManagerTerm::LastStatus(21)
        ]))
    );
}
