use fluxgate::{
    CheckRequest, Fluxgate, FluxgateError, FluxgateInit, FluxgatePolicy, Metrics, PolicyAction,
};

fn policy(id: &str, rule: &str, limit: u32, burst: u32, action: Option<PolicyAction>) -> FluxgatePolicy {
    FluxgatePolicy {
        id: id.to_string(),
        match_rule: rule.to_string(),
        limit_per_second: limit,
        burst,
        window_seconds: 1,
        action,
    }
}

fn engine(policies: Vec<FluxgatePolicy>) -> Fluxgate {
    Fluxgate::new(FluxgateInit {
        policies: Some(policies),
        ..FluxgateInit::default()
    })
    .unwrap()
}

fn ip_request(ip: &str) -> CheckRequest {
    CheckRequest {
        ip: Some(ip.to_string()),
        route: None,
        headers: None,
        attrs: None,
    }
}

#[test]
fn burst_then_deny_at_one_instant() {
    let mut gate = engine(vec![policy("p", "ip:*", 10, 3, None)]);
    for _ in 0..3 {
        let res = gate.check_at(ip_request("10.0.0.1"), 1_000);
        assert!(res.allowed);
        assert_eq!(res.retry_after_ms, None);
    }
    let res = gate.check_at(ip_request("10.0.0.1"), 1_000);
    assert!(!res.allowed);
    assert_eq!(res.retry_after_ms, Some(100));
    // A different caller lands on its own bucket and is still admitted.
    let res = gate.check_at(ip_request("10.0.0.2"), 1_000);
    assert!(res.allowed);
}

#[test]
fn retry_after_readmits_on_the_boundary() {
    let mut gate = engine(vec![policy("p", "ip:*", 2, 1, None)]);
    assert!(gate.check_at(ip_request("10.0.0.1"), 0).allowed);
    let denied = gate.check_at(ip_request("10.0.0.1"), 0);
    assert!(!denied.allowed);
    assert_eq!(denied.retry_after_ms, Some(500));
    let still_denied = gate.check_at(ip_request("10.0.0.1"), 499);
    assert!(!still_denied.allowed);
    let readmitted = gate.check_at(ip_request("10.0.0.1"), 500);
    assert!(readmitted.allowed);
}

#[test]
fn zero_rate_policy_always_denies() {
    let mut gate = engine(vec![policy("p", "ip:*", 0, 0, None)]);
    let first = gate.check_at(ip_request("10.0.0.1"), 0);
    assert!(!first.allowed);
    assert_eq!(first.retry_after_ms, Some(1000));
    let second = gate.check_at(ip_request("10.0.0.1"), 5_000_000);
    assert!(!second.allowed);
    assert_eq!(second.retry_after_ms, Some(1000));
}

#[test]
fn aggregation_takes_maximum_retry() {
    // Both policies match and deny immediately: one asks for 500 ms, the
    // other for 200 ms; the aggregate is the maximum.
    let mut gate = engine(vec![
        policy("slow", "ip:*", 2, 0, None),
        policy("fast", "ip:*", 5, 0, None),
    ]);
    let res = gate.check_at(ip_request("10.0.0.1"), 0);
    assert!(!res.allowed);
    assert_eq!(res.retry_after_ms, Some(500));
    assert_eq!(res.decisions.len(), 2);
    assert_eq!(res.decisions[0].0, "slow");
    assert_eq!(res.decisions[0].1.retry_after_ms, Some(500));
    assert_eq!(res.decisions[1].0, "fast");
    assert_eq!(res.decisions[1].1.retry_after_ms, Some(200));
}

#[test]
fn annotating_denial_does_not_deny() {
    let mut gate = engine(vec![
        policy("observer", "ip:*", 0, 0, Some(PolicyAction::Annotate)),
        policy("gatekeeper", "ip:*", 10, 10, Some(PolicyAction::Reject)),
    ]);
    let res = gate.check_at(ip_request("10.0.0.1"), 0);
    assert!(res.allowed);
    assert_eq!(res.retry_after_ms, None);
    assert_eq!(res.decisions.len(), 2);
    assert_eq!(res.decisions[0].0, "observer");
    assert!(!res.decisions[0].1.allowed);
    assert!(res.decisions[1].1.allowed);
}

#[test]
fn non_matching_policy_contributes_no_decision() {
    let mut gate = engine(vec![policy("p", "route:/api/*", 10, 10, None)]);
    let res = gate.check_at(ip_request("10.0.0.1"), 0);
    assert!(res.allowed);
    assert_eq!(res.decisions.len(), 0);
}

#[test]
fn metrics_tally_verdicts() {
    let mut gate = engine(vec![policy("p", "ip:*", 10, 1, None)]);
    gate.check_at(ip_request("10.0.0.1"), 0);
    gate.check_at(ip_request("10.0.0.1"), 0);
    gate.check_at(ip_request("10.0.0.1"), 0);
    let metrics = gate.metrics();
    assert_eq!(
        metrics,
        vec![
            ("checks_total".to_string(), 3),
            ("allowed_total".to_string(), 1),
            ("denied_total".to_string(), 2),
        ]
    );
}

#[test]
fn metrics_counter_unit() {
    let mut m = Metrics::default();
    m.record(true);
    m.record(false);
    m.record(false);
    let map = m.as_map();
    assert_eq!(map[0], ("checks_total".to_string(), 3));
    assert_eq!(map[1], ("allowed_total".to_string(), 1));
    assert_eq!(map[2], ("denied_total".to_string(), 2));
}

#[test]
fn snapshot_restore_reproduces_behavior() {
    let mut original = engine(vec![
        policy("a", "ip:203.0.113.*", 2, 2, None),
        policy("b", "header:x-api-key=?", 1, 1, None),
    ]);
    original.check_at(ip_request("203.0.113.7"), 1_000);
    original.check_at(ip_request("203.0.113.7"), 1_100);
    let snap = original.snapshot().unwrap();

    let mut restored = engine(vec![policy("other", "ip:*", 1, 1, None)]);
    restored.restore(&snap).unwrap();

    // The restored engine answers every subsequent check exactly as the
    // pre-snapshot instance does, including bucket state and metrics.
    for t in [1_150u64, 1_200, 2_000, 2_600, 3_000] {
        let r1 = original.check_at(ip_request("203.0.113.7"), t);
        let r2 = restored.check_at(ip_request("203.0.113.7"), t);
        assert_eq!(r1, r2);
    }
    assert_eq!(original.metrics(), restored.metrics());
}

#[test]
fn snapshot_preserves_bucket_keys() {
    // Key determinism across a snapshot and restore: the restored engine
    // keeps charging the same caller against the same bucket.
    let mut original = engine(vec![policy("p", "ip:*", 1, 2, None)]);
    assert!(original.check_at(ip_request("10.0.0.1"), 0).allowed);
    let snap = original.snapshot().unwrap();
    let mut restored = engine(vec![policy("p", "ip:*", 1, 2, None)]);
    restored.restore(&snap).unwrap();
    // One token remains for this caller in the restored state.
    assert!(restored.check_at(ip_request("10.0.0.1"), 0).allowed);
    assert!(!restored.check_at(ip_request("10.0.0.1"), 0).allowed);
}

#[test]
fn restore_rejects_malformed_payload() {
    let mut gate = engine(vec![policy("p", "ip:*", 10, 1, None)]);
    gate.check_at(ip_request("10.0.0.1"), 0);
    let before = gate.metrics();
    let err = gate.restore(&[1, 2, 3]).unwrap_err();
    assert!(err.message().contains("serialization error"));
    // The previous state stays authoritative.
    assert_eq!(gate.metrics(), before);
}

#[test]
fn reload_replaces_state_atomically() {
    let mut gate = engine(vec![policy("old", "ip:*", 10, 1, None)]);
    gate.check_at(ip_request("10.0.0.1"), 0);
    gate.check_at(ip_request("10.0.0.1"), 0);

    gate.reload(FluxgateInit {
        policies: Some(vec![policy("new", "route:/api/*", 10, 1, None)]),
        ..FluxgateInit::default()
    })
    .unwrap();

    // No counters from the prior configuration remain.
    assert_eq!(
        gate.metrics(),
        vec![
            ("checks_total".to_string(), 0),
            ("allowed_total".to_string(), 0),
            ("denied_total".to_string(), 0),
        ]
    );
    // The old policy set is gone: an IP-only request no longer matches.
    let res = gate.check_at(ip_request("10.0.0.1"), 0);
    assert!(res.allowed);
    assert_eq!(res.decisions.len(), 0);
}

#[test]
fn failed_reload_keeps_existing_state() {
    let mut gate = engine(vec![policy("p", "ip:*", 10, 1, None)]);
    gate.check_at(ip_request("10.0.0.1"), 0);
    let before = gate.metrics();
    let err = gate
        .reload(FluxgateInit {
            policies: Some(vec![]),
            ..FluxgateInit::default()
        })
        .unwrap_err();
    assert!(err.message().contains("invalid configuration"));
    assert_eq!(gate.metrics(), before);
}

#[test]
fn construction_rejects_bad_configs() {
    let empty = Fluxgate::new(FluxgateInit::default()).unwrap_err();
    assert_eq!(
        empty.message(),
        "invalid configuration: at least one policy must be provided"
    );

    let bad_rule = Fluxgate::new(FluxgateInit {
        policies: Some(vec![
            policy("fine", "ip:*", 1, 1, None),
            policy("broken", "bogus:x", 1, 1, None),
        ]),
        ..FluxgateInit::default()
    })
    .unwrap_err();
    assert_eq!(
        bad_rule.message(),
        "invalid configuration: policy broken match parse error: unsupported matcher token: bogus:x"
    );

    let with_text = Fluxgate::new(FluxgateInit {
        policies: Some(vec![policy("p", "ip:*", 1, 1, None)]),
        config_text: Some("policies: []".to_string()),
        ..FluxgateInit::default()
    })
    .unwrap_err();
    assert!(matches!(with_text, FluxgateError::InvalidConfig(_)));
    assert_eq!(
        with_text.message(),
        "invalid configuration: configText provided but YAML support is disabled"
    );
}

#[test]
fn into_config_compiles_policies() {
    let init = FluxgateInit {
        policies: Some(vec![policy("p", "ip:* route:/api/*", 1, 1, None)]),
        key_secret: Some("s".to_string()),
        ..FluxgateInit::default()
    };
    let config = init.into_config().unwrap();
    assert_eq!(config.policies.len(), 1);
    assert_eq!(config.policies[0].definition.id, "p");
    assert_eq!(config.key_secret, Some("s".to_string()));
}

#[test]
fn check_batch_shares_bucket_state() {
    let mut gate = engine(vec![policy("p", "ip:*", 1, 1, None)]);
    let results = gate.check_batch(vec![ip_request("10.0.0.1"), ip_request("10.0.0.1")]);
    assert_eq!(results.len(), 2);
    assert!(results[0].allowed);
    assert!(!results[1].allowed);
    assert_eq!(
        gate.metrics()[0],
        ("checks_total".to_string(), 2)
    );
}

#[test]
fn rotate_and_version() {
    let mut gate = engine(vec![policy("p", "ip:*", 1, 1, None)]);
    let before = gate.metrics();
    gate.rotate();
    assert_eq!(gate.metrics(), before);
    assert_eq!(gate.version(), "0.1.0");
}

#[test]
fn check_uses_wall_clock() {
    let mut gate = engine(vec![policy("p", "ip:*", 1, 1, None)]);
    let res = gate.check(ip_request("10.0.0.1"));
    assert!(res.allowed);
    assert_eq!(gate.metrics()[0], ("checks_total".to_string(), 1));
}
