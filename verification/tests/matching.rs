use fluxgate::{
    AttrValue, CheckRequest, KeyBuilder, MatchPattern, PolicyMatcher, TokenBucket,
};

fn req_with_ip(ip: &str) -> CheckRequest {
    CheckRequest {
        ip: Some(ip.to_string()),
        route: None,
        headers: None,
        attrs: None,
    }
}

#[test]
fn zero_rate_always_denies() {
    let mut bucket = TokenBucket::new(0, 0);

    let (allowed, retry_after) = bucket.consume(0, 0, 0);
    assert!(!allowed);
    assert_eq!(retry_after, Some(1000));
    assert_eq!(bucket.remaining_millitokens(), 0);

    // Even after time has passed, the bucket cannot refill past its zero
    // burst capacity: a zero rate is the slowest non-zero rate, and with
    // no burst allowance a whole token is never available.
    let (allowed, retry_after) = bucket.consume(0, 0, 5_000);
    assert!(!allowed);
    assert_eq!(retry_after, Some(1000));
    assert_eq!(bucket.remaining_millitokens(), 0);
}

#[test]
fn fresh_bucket_admits_exactly_burst() {
    let mut bucket = TokenBucket::new(3, 100);
    for _ in 0..3 {
        let (allowed, retry) = bucket.consume(10, 3, 100);
        assert!(allowed);
        assert_eq!(retry, None);
    }
    let (allowed, retry) = bucket.consume(10, 3, 100);
    assert!(!allowed);
    assert_eq!(retry, Some(100));
}

#[test]
fn retry_after_is_exact_boundary() {
    // burst 1, rate 2 tokens per second: the second request at the same
    // instant is denied and must wait exactly 500 ms.
    let mut bucket = TokenBucket::new(1, 0);
    let (allowed, _) = bucket.consume(2, 1, 0);
    assert!(allowed);
    let (allowed, retry) = bucket.consume(2, 1, 0);
    assert!(!allowed);
    assert_eq!(retry, Some(500));

    // One millisecond before the computed wait the bucket still denies;
    // at exactly the wait it admits.
    let (allowed, _) = bucket.consume(2, 1, 499);
    assert!(!allowed);
    let (allowed, retry) = bucket.consume(2, 1, 500);
    assert!(allowed);
    assert_eq!(retry, None);

    // A fresh denial followed by a single retry at exactly the wait.
    let mut b2 = TokenBucket::new(1, 0);
    b2.consume(2, 1, 0);
    let (allowed, retry) = b2.consume(2, 1, 0);
    assert!(!allowed);
    assert_eq!(retry, Some(500));
    let (allowed, _) = b2.consume(2, 1, 500);
    assert!(allowed);
}

#[test]
fn bucket_clamps_regressing_clock() {
    let mut bucket = TokenBucket::new(1, 1_000);
    let (allowed, _) = bucket.consume(1, 1, 1_000);
    assert!(allowed);
    // The clock regresses: no refill, and no phantom credit later.
    let (allowed, retry) = bucket.consume(1, 1, 500);
    assert!(!allowed);
    assert_eq!(retry, Some(1000));
}

#[test]
fn pattern_grammar() {
    assert!(matches!(MatchPattern::parse(""), Ok(MatchPattern::Any)));
    assert!(matches!(MatchPattern::parse("*"), Ok(MatchPattern::Any)));
    assert!(matches!(MatchPattern::parse("?"), Ok(MatchPattern::Exists)));
    match MatchPattern::parse("abc*") {
        Ok(MatchPattern::Prefix(p)) => assert_eq!(p, "abc"),
        _ => panic!("expected a prefix pattern"),
    }
    match MatchPattern::parse("abc") {
        Ok(MatchPattern::Equals(p)) => assert_eq!(p, "abc"),
        _ => panic!("expected an equality pattern"),
    }
}

#[test]
fn header_and_attr_clause_parsing() {
    let (name, pattern) = fluxgate::parse_header_clause("x-api-key=val*").unwrap();
    assert_eq!(name, "x-api-key");
    assert!(matches!(pattern, MatchPattern::Prefix(p) if p == "val"));

    let (name, pattern) = fluxgate::parse_header_clause("accept").unwrap();
    assert_eq!(name, "accept");
    assert!(matches!(pattern, MatchPattern::Any));

    let (name, pattern) = fluxgate::parse_attr_clause("plan=pro").unwrap();
    assert_eq!(name, "plan");
    assert!(matches!(pattern, MatchPattern::Equals(p) if p == "pro"));
}

#[test]
fn match_value_semantics() {
    let equals = MatchPattern::parse("pro").unwrap();
    assert_eq!(
        fluxgate::match_value(&equals, Some("pro".to_string())),
        Some("pro".to_string())
    );
    assert_eq!(fluxgate::match_value(&equals, Some("basic".to_string())), None);
    assert_eq!(fluxgate::match_value(&equals, None), None);

    let any = MatchPattern::parse("*").unwrap();
    assert_eq!(fluxgate::match_value(&any, None), None);
    assert_eq!(
        fluxgate::match_value(&any, Some("x".to_string())),
        Some("x".to_string())
    );
}

#[test]
fn matcher_ip_prefix_capture() {
    let matcher = PolicyMatcher::from_rule("ip:203.0.113.*").unwrap();
    let captured = matcher.matches(&req_with_ip("203.0.113.7")).unwrap();
    assert_eq!(captured, vec![("ip".to_string(), "203.0.113.7".to_string())]);
    assert!(matcher.matches(&req_with_ip("198.51.100.1")).is_none());
}

#[test]
fn matcher_header_presence() {
    let matcher = PolicyMatcher::from_rule("header:x-api-key=?").unwrap();

    let with_header = CheckRequest {
        ip: None,
        route: None,
        headers: Some(vec![("x-api-key".to_string(), Some("".to_string()))]),
        attrs: None,
    };
    let captured = matcher.matches(&with_header).unwrap();
    assert_eq!(captured, vec![("x-api-key".to_string(), "".to_string())]);

    let without_header = CheckRequest::default();
    assert!(matcher.matches(&without_header).is_none());

    // Present but null counts as absent.
    let null_header = CheckRequest {
        ip: None,
        route: None,
        headers: Some(vec![("x-api-key".to_string(), None)]),
        attrs: None,
    };
    assert!(matcher.matches(&null_header).is_none());
}

#[test]
fn matcher_attr_equality() {
    let matcher = PolicyMatcher::from_rule("attr:plan=pro").unwrap();

    let pro = CheckRequest {
        ip: None,
        route: None,
        headers: None,
        attrs: Some(vec![("plan".to_string(), AttrValue::Text("pro".to_string()))]),
    };
    let captured = matcher.matches(&pro).unwrap();
    assert_eq!(captured, vec![("plan".to_string(), "pro".to_string())]);

    let basic = CheckRequest {
        ip: None,
        route: None,
        headers: None,
        attrs: Some(vec![("plan".to_string(), AttrValue::Text("basic".to_string()))]),
    };
    assert!(matcher.matches(&basic).is_none());

    let number = CheckRequest {
        ip: None,
        route: None,
        headers: None,
        attrs: Some(vec![("plan".to_string(), AttrValue::Number("10".to_string()))]),
    };
    assert!(matcher.matches(&number).is_none());
}

#[test]
fn matcher_rejects_bad_rules() {
    assert_eq!(
        PolicyMatcher::from_rule("").unwrap_err(),
        "policy match rule must contain at least one predicate"
    );
    assert_eq!(
        PolicyMatcher::from_rule("   ").unwrap_err(),
        "policy match rule must contain at least one predicate"
    );
    assert_eq!(
        PolicyMatcher::from_rule("bogus:x").unwrap_err(),
        "unsupported matcher token: bogus:x"
    );
    // The first token that does not parse names the error, even after
    // good ones.
    assert_eq!(
        PolicyMatcher::from_rule("ip:* nope route:/x also-bad").unwrap_err(),
        "unsupported matcher token: nope"
    );
}

#[test]
fn unicode_whitespace_separates_and_trims() {
    // Em space and no-break space count as token separators.
    let matcher = PolicyMatcher::from_rule("\u{2003}ip:*\u{00A0}route:/api\u{2003}").unwrap();
    let req = CheckRequest {
        ip: Some("10.0.0.1".to_string()),
        route: Some("/api".to_string()),
        headers: None,
        attrs: None,
    };
    assert!(matcher.matches(&req).is_some());

    // Trimming around a clause's pattern strips the same set.
    let (name, pattern) = fluxgate::parse_header_clause("k=\u{00A0}v\u{00A0}").unwrap();
    assert_eq!(name, "k");
    assert!(matches!(pattern, MatchPattern::Equals(p) if p == "v"));
}

#[test]
fn canonical_attr_text() {
    assert_eq!(AttrValue::Null.canonical_text(), "null");
    assert_eq!(AttrValue::Bool(true).canonical_text(), "true");
    assert_eq!(AttrValue::Bool(false).canonical_text(), "false");
    assert_eq!(AttrValue::Number("2.5".to_string()).canonical_text(), "2.5");
    assert_eq!(AttrValue::Text("pro".to_string()).canonical_text(), "pro");
    assert_eq!(
        AttrValue::Array("[1,2]".to_string()).canonical_text(),
        "[1,2]"
    );
}

#[test]
fn key_builder_is_deterministic() {
    let kb1 = KeyBuilder::new(Some("secret"));
    let kb2 = KeyBuilder::new(Some("secret"));
    let captured = vec![("ip".to_string(), "203.0.113.7".to_string())];
    let k1 = kb1.build_key("policy-a", &captured);
    let k2 = kb2.build_key("policy-a", &captured);
    assert_eq!(k1, k2);

    // The digest depends on its inputs: the same builder separates
    // different policies and captures, and different secrets separate
    // everything.
    let other_capture = vec![("ip".to_string(), "203.0.113.8".to_string())];
    assert_ne!(k1, kb1.build_key("policy-b", &captured));
    assert_ne!(k1, kb1.build_key("policy-a", &other_capture));
    let kb3 = KeyBuilder::new(Some("another-secret"));
    assert_ne!(k1, kb3.build_key("policy-a", &captured));

    let default1 = KeyBuilder::new(None);
    let default2 = KeyBuilder::new(None);
    assert_eq!(
        default1.build_key("p", &captured),
        default2.build_key("p", &captured)
    );
}
