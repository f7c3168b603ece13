use contacts::{find_emails, find_phone_nums, strict_email, valid_phone, Classifier, StringExt};

// email tests
#[test]
fn should_not_be_email() {
    assert_eq!("hello".is_email(), None);
    assert_eq!("hello again".is_email(), None)
}

#[test]
fn should_be_email() {
    assert_eq!(strict_email("my_email@example.com"), true);
    assert_eq!(strict_email("my_emaildomain.com"), false);
    assert_eq!(strict_email("my_email@domaincom"), false);
    assert_eq!(strict_email("my_emaildomaincom"), false);
    assert_eq!(strict_email("my.email+1@example.com"), true);
    assert_eq!(strict_email("fname1202@domain.com"), true);
    assert_eq!(strict_email("user%example.com@example.org"), true);
    assert_eq!(strict_email("@example.com"), true);
    assert_eq!(strict_email("wrong@email@example.com"), false);
}

#[test]
fn no_email_duplicates() {
    let sample = "hello my email is frank.roosevelt@whitehouse.gov, one more time that is frank.roosevelt@whitehouse.gov.  Just to be sure... frank.roosevelt@whitehouse.gov";
    let emails = find_emails(&sample);
    assert_eq!(emails.len(), 1);

    let case_sensitive =
        "my tall email is EXAMPLE@EXAMPLE.COM. My short email is example@example.com.";
    let case_emails = find_emails(&case_sensitive);
    assert_eq!(case_emails.len(), 1);
}

// phone number tests
#[test]
fn valid_phone_number() {
    vec![
        "18005551234",
        "5553920011",
        "1 (800) 233-2010",
        "+1 916 222-4444",
        "+86 800 555 1234",
    ]
    .iter()
    .for_each(|n| assert_eq!(valid_phone(n), true));
}

#[test]
fn invalid_phone_number() {
    vec!["123", "1", "(800)", "+1"]
        .iter()
        .for_each(|n| assert_eq!(valid_phone(n), false));
}

#[test]
fn repeated_address_is_returned_once_and_exactly() {
    let sample = "hello my email is frank.roosevelt@whitehouse.gov, one more time that is frank.roosevelt@whitehouse.gov.  Just to be sure... frank.roosevelt@whitehouse.gov";
    assert_eq!(find_emails(sample), vec!["frank.roosevelt@whitehouse.gov".to_string()]);
}

#[test]
fn case_variants_are_merged() {
    let text = "my tall email is EXAMPLE@EXAMPLE.COM. My short email is example@example.com.";
    assert_eq!(find_emails(text), vec!["example@example.com".to_string()]);
}

#[test]
fn text_without_candidates_has_no_emails() {
    assert!(find_emails("").is_empty());
    assert!(find_emails("   \t\n ").is_empty());
    assert!(find_emails("nothing to see here, move along").is_empty());
    assert!(find_emails("dots.but no at-sign example.com").is_empty());
    assert!(find_emails("wrong@email@example.com").is_empty());
}

#[test]
fn emails_are_lowercase() {
    let found = find_emails("Write to Jane.DOE@Example.ORG or to BOB@EXAMPLE.COM today");
    assert_eq!(
        found,
        vec!["bob@example.com".to_string(), "jane.doe@example.org".to_string()]
    );
    for email in &found {
        assert_eq!(email, &email.to_lowercase());
    }
}

#[test]
fn emails_are_sorted_after_lowercasing() {
    // In the order of the raw texts "A..." and "B..." both stand before "a...".
    let found = find_emails("A@x.com B@x.com a@x.com");
    assert_eq!(found, vec!["a@x.com".to_string(), "b@x.com".to_string()]);
}

#[test]
fn results_hold_no_duplicates() {
    let emails = find_emails("b@x.org a@x.org b@x.org A@X.ORG a@x.org, b@x.org.");
    assert_eq!(emails, vec!["a@x.org".to_string(), "b@x.org".to_string()]);
    let phones = find_phone_nums("5553920011 18005551234 5553920011 18005551234");
    assert_eq!(phones, vec!["18005551234".to_string(), "5553920011".to_string()]);
}

#[test]
fn extractors_are_repeatable() {
    let text = "call 555-392-0011 or 1.800.555.1234, mail me@example.com or YOU@example.com";
    assert_eq!(find_emails(text), find_emails(text));
    assert_eq!(find_phone_nums(text), find_phone_nums(text));
    assert_eq!(find_emails(text), vec!["me@example.com".to_string(), "you@example.com".to_string()]);
    assert_eq!(
        find_phone_nums(text),
        vec!["1.800.555.1234,".to_string(), "555-392-0011".to_string()]
    );
}

#[test]
fn permissive_edge_cases_of_the_strict_predicate() {
    assert!(strict_email("@example.com"));
    assert!(strict_email("a b@example.com"));
    assert!(strict_email("..@a.b"));
    assert!(!strict_email("me@example.com."));
    assert!(!strict_email("me@example.com,"));
    assert!(!strict_email("me@exa-mple.com"));
    assert!(!strict_email("@@example.com"));
    assert!(!strict_email(""));
}

#[test]
fn scanner_finds_what_the_strict_predicate_misses() {
    // Punctuation after the address hides it from the strict predicate.
    assert!(!strict_email("(someone@example.com)"));
    assert_eq!(find_emails("(someone@example.com)"), vec!["someone@example.com".to_string()]);
    // A token that only the strict predicate accepts is kept as a whole.
    assert_eq!(find_emails("x @example.com y"), vec!["@example.com".to_string()]);
}

#[test]
fn phone_numbers_keep_their_formatting() {
    let found = find_phone_nums("home: (555)392-0011 work: +1.800.555.1234 fax: 555.392.0011");
    assert_eq!(
        found,
        vec![
            "(555)392-0011".to_string(),
            "+1.800.555.1234".to_string(),
            "555.392.0011".to_string()
        ]
    );
}

#[test]
fn phone_detector_works_token_by_token() {
    // The number is split over three tokens, none of which has the shape.
    assert!(find_phone_nums("800 555 1234").is_empty());
    assert!(find_phone_nums("").is_empty());
    assert!(find_phone_nums("123 1 (800) +1").is_empty());
    // Characters around a number of the right shape do not matter.
    assert_eq!(find_phone_nums("tel:5553920011;"), vec!["tel:5553920011;".to_string()]);
}

#[test]
fn phone_detector_has_no_second_pass() {
    // An e-mail address next to punctuation is found by the scanner, a phone
    // number is only found as a token.
    assert!(find_phone_nums("mail me@example.com").is_empty());
    assert_eq!(find_emails("mail <me@example.com>"), vec!["me@example.com".to_string()]);
}

#[test]
fn classified_text_is_handed_back() {
    assert_eq!("my_email@example.com".is_email(), Some("my_email@example.com".to_string()));
    assert_eq!("wrong@email@example.com".is_email(), None);
    assert_eq!("1 (800) 233-2010".is_phone(), Some("1 (800) 233-2010".to_string()));
    assert_eq!("(800)".is_phone(), None);
}

#[test]
fn classifier_compiles_both_patterns() {
    assert!(Classifier::new().is_complete());
}

#[test]
fn classifier_agrees_with_the_predicates() {
    let judge = Classifier::new();
    let tokens = [
        "my_email@example.com",
        "my_emaildomain.com",
        "@example.com",
        "wrong@email@example.com",
        "18005551234",
        "1 (800) 233-2010",
        "(800)",
        "+1",
        "",
    ];
    for token in tokens.iter() {
        assert_eq!(judge.is_email(token), strict_email(token));
        assert_eq!(judge.is_phone(token), valid_phone(token));
    }
    assert!(judge.is_email("my_email@example.com"));
    assert!(!judge.is_email("18005551234"));
    assert!(judge.is_phone("18005551234"));
    assert!(!judge.is_phone("my_email@example.com"));
}

#[test]
fn classifier_agrees_with_the_detectors() {
    let judge = Classifier::new();
    let text = "call 555-392-0011 or 1.800.555.1234, mail me@example.com or YOU@example.com";
    assert_eq!(judge.find_emails(text), find_emails(text));
    assert_eq!(judge.find_phone_nums(text), find_phone_nums(text));
    assert_eq!(judge.find_emails(text), vec!["me@example.com".to_string(), "you@example.com".to_string()]);
    assert_eq!(judge.find_phone_nums("a 5553920011 b"), vec!["5553920011".to_string()]);
}

#[test]
fn a_long_text_is_handled() {
    let mut text = String::new();
    for i in 0..2000 {
        text.push_str("word ");
        if i % 10 == 0 {
            text.push_str(&format!("user{}@example.com 555392{:04} ", i % 50, i % 70));
        }
    }
    assert_eq!(find_emails(&text).len(), 5);
    assert_eq!(find_phone_nums(&text).len(), 7);
}
