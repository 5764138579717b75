use vstd::prelude::*;

use crate::config::{
    config_error_text, config_of_init, decision_pairs_view, enforces, init_ok, CheckDecision,
    CheckRequest, CheckResult, CompiledModel, CompiledPolicy, ConfigModel, FluxgateConfig,
    FluxgateInit, PolicyAction, RequestModel, ResultModel,
};
use crate::error::FluxgateError;
use crate::gcra::{bucket_after, bucket_allows, bucket_retry, fresh_bucket, TokenBucket};
use crate::key_builder::{k0_of_seed, k1_of_seed, key_of, seed_of, KeyBuilder};
use crate::metrics::{metrics_wf, recorded, Metrics};
use crate::policy::{
    has_pair_key, lemma_upsert_absent, lemma_upsert_adds_key, lemma_upsert_found,
    lemma_upsert_keeps_keys, matcher_eval, upsert,
};

verus! {

/// One compiled policy together with its bucket table: the per-key rate
/// state observed under this policy, keyed by bucket-key fingerprint in
/// order of first observation.
#[derive(Debug)]
pub struct PolicyState {
    pub compiled: CompiledPolicy,
    pub buckets: Vec<(u64, TokenBucket)>,
}

#[verifier::ext_equal]
pub struct PolicyStateModel {
    pub compiled: CompiledModel,
    pub buckets: Seq<(u64, TokenBucket)>,
}

impl View for PolicyState {
    type V = PolicyStateModel;

    open spec fn view(&self) -> PolicyStateModel {
        PolicyStateModel { compiled: self.compiled@, buckets: self.buckets@ }
    }
}

pub open spec fn psm_views(v: Seq<PolicyState>) -> Seq<PolicyStateModel> {
    v.map_values(|p: PolicyState| p@)
}

/// A bucket table never holds two entries with the same key.
pub open spec fn policy_state_wf(ps: PolicyStateModel) -> bool {
    forall|i: int, j: int| 0 <= i < j < ps.buckets.len() ==> ps.buckets[i].0 != ps.buckets[j].0
}

/// The position of the first table entry with the given key at or after
/// `i`, if any.
pub open spec fn tbl_find(tbl: Seq<(u64, TokenBucket)>, key: u64, i: int) -> Option<int>
    decreases tbl.len() - i,
{
    if i < 0 || i >= tbl.len() {
        None
    } else if tbl[i].0 == key {
        Some(i)
    } else {
        tbl_find(tbl, key, i + 1)
    }
}

/// The admission-control engine: keying constants, one state per
/// compiled policy in configured order, cumulative counters, and the
/// carried options. The whole value is replaced, never patched, on
/// reload and restore.
#[derive(Debug)]
pub struct Fluxgate {
    pub key_builder: KeyBuilder,
    pub policies: Vec<PolicyState>,
    pub metrics: Metrics,
    pub key_secret: Option<String>,
    pub slices: Option<u32>,
    pub sketch_width: Option<u32>,
    pub sketch_depth: Option<u32>,
    pub top_k: Option<u32>,
    pub shard_a_hot_capacity: Option<u32>,
    pub admission_hits_to_promote: Option<u32>,
}

#[verifier::ext_equal]
pub struct EngineModel {
    pub k0: u64,
    pub k1: u64,
    pub policies: Seq<PolicyStateModel>,
    pub metrics: Metrics,
    pub key_secret: Option<Seq<char>>,
    pub slices: Option<u32>,
    pub sketch_width: Option<u32>,
    pub sketch_depth: Option<u32>,
    pub top_k: Option<u32>,
    pub shard_a_hot_capacity: Option<u32>,
    pub admission_hits_to_promote: Option<u32>,
}

impl View for Fluxgate {
    type V = EngineModel;

    open spec fn view(&self) -> EngineModel {
        EngineModel {
            k0: self.key_builder.k0,
            k1: self.key_builder.k1,
            policies: psm_views(self.policies@),
            metrics: self.metrics,
            key_secret: crate::config::opt_text(self.key_secret),
            slices: self.slices,
            sketch_width: self.sketch_width,
            sketch_depth: self.sketch_depth,
            top_k: self.top_k,
            shard_a_hot_capacity: self.shard_a_hot_capacity,
            admission_hits_to_promote: self.admission_hits_to_promote,
        }
    }
}

/// Well-formed engine state: consistent counters and duplicate-free
/// bucket tables.
pub open spec fn engine_wf(m: EngineModel) -> bool {
    &&& metrics_wf(m.metrics)
    &&& forall|p: int| 0 <= p < m.policies.len() ==> policy_state_wf(#[trigger] m.policies[p])
}

/// One policy's part of a check: on a rule match, derive the bucket key
/// from the captured values, read or lazily create that bucket, run one
/// admission step on it, and report the decision with the policy's
/// enforcement flag; on no match, contribute nothing.
pub open spec fn policy_step(
    ps: PolicyStateModel,
    k0: u64,
    k1: u64,
    req: RequestModel,
    now_ms: u64,
) -> (PolicyStateModel, Option<(CheckDecision, bool)>) {
    match matcher_eval(ps.compiled.clauses, req) {
        None => (ps, None),
        Some(captured) => {
            let key = key_of(k0, k1, ps.compiled.definition.id, captured);
            let limit = ps.compiled.definition.limit_per_second;
            let burst = ps.compiled.definition.burst;
            let b0 = match tbl_find(ps.buckets, key, 0) {
                Some(i) => ps.buckets[i].1,
                None => fresh_bucket(burst, now_ms),
            };
            let decision = CheckDecision {
                allowed: bucket_allows(b0, limit, burst, now_ms),
                retry_after_ms: bucket_retry(b0, limit, burst, now_ms),
            };
            let b1 = bucket_after(b0, limit, burst, now_ms);
            let buckets1 = match tbl_find(ps.buckets, key, 0) {
                Some(i) => ps.buckets.update(i, (key, b1)),
                None => ps.buckets.push((key, b1)),
            };
            (
                PolicyStateModel { compiled: ps.compiled, buckets: buckets1 },
                Some((decision, enforces(ps.compiled.definition.action))),
            )
        },
    }
}

/// Aggregate retry-after: the first enforcing denial sets it, later ones
/// only raise it.
pub open spec fn combine_retry(acc: Option<u32>, new_retry: Option<u32>) -> Option<u32> {
    match (acc, new_retry) {
        (Some(a), Some(b)) => Some(
            if a >= b {
                a
            } else {
                b
            },
        ),
        (None, Some(b)) => Some(b),
        (a, None) => a,
    }
}

/// Evaluate the policies in configured order, threading the bucket
/// tables, the decision listing and the aggregate outcome. An enforcing
/// denial turns the aggregate outcome to denied and raises its
/// retry-after by maximum; annotating policies only add their decision.
pub open spec fn check_fold(
    policies: Seq<PolicyStateModel>,
    k0: u64,
    k1: u64,
    req: RequestModel,
    now_ms: u64,
    dec: Seq<(Seq<char>, CheckDecision)>,
    allowed: bool,
    retry: Option<u32>,
) -> (Seq<PolicyStateModel>, Seq<(Seq<char>, CheckDecision)>, bool, Option<u32>)
    decreases policies.len(),
{
    if policies.len() == 0 {
        (Seq::empty(), dec, allowed, retry)
    } else {
        let stepped = policy_step(policies[0], k0, k1, req, now_ms);
        let dec1 = match stepped.1 {
            None => dec,
            Some(o) => upsert(dec, policies[0].compiled.definition.id, o.0),
        };
        let allowed1 = match stepped.1 {
            None => allowed,
            Some(o) => if o.1 && !o.0.allowed {
                false
            } else {
                allowed
            },
        };
        let retry1 = match stepped.1 {
            None => retry,
            Some(o) => if o.1 && !o.0.allowed {
                combine_retry(retry, o.0.retry_after_ms)
            } else {
                retry
            },
        };
        let rest = check_fold(policies.drop_first(), k0, k1, req, now_ms, dec1, allowed1, retry1);
        (seq![stepped.0] + rest.0, rest.1, rest.2, rest.3)
    }
}

/// The fold never drops a decision key already present.
proof fn lemma_fold_keeps_decision(
    policies: Seq<PolicyStateModel>,
    k0: u64,
    k1: u64,
    req: RequestModel,
    now_ms: u64,
    dec: Seq<(Seq<char>, CheckDecision)>,
    allowed: bool,
    retry: Option<u32>,
    id: Seq<char>,
)
    requires
        has_pair_key(dec, id),
    ensures
        has_pair_key(check_fold(policies, k0, k1, req, now_ms, dec, allowed, retry).1, id),
    decreases policies.len(),
{
    if policies.len() > 0 {
        let stepped = policy_step(policies[0], k0, k1, req, now_ms);
        match stepped.1 {
            None => {
                lemma_fold_keeps_decision(
                    policies.drop_first(),
                    k0,
                    k1,
                    req,
                    now_ms,
                    dec,
                    allowed,
                    retry,
                    id,
                );
            },
            Some(o) => {
                lemma_upsert_keeps_keys(dec, policies[0].compiled.definition.id, o.0, id);
                let dec1 = upsert(dec, policies[0].compiled.definition.id, o.0);
                let allowed1 = if o.1 && !o.0.allowed {
                    false
                } else {
                    allowed
                };
                let retry1 = if o.1 && !o.0.allowed {
                    combine_retry(retry, o.0.retry_after_ms)
                } else {
                    retry
                };
                lemma_fold_keeps_decision(
                    policies.drop_first(),
                    k0,
                    k1,
                    req,
                    now_ms,
                    dec1,
                    allowed1,
                    retry1,
                    id,
                );
            },
        }
    }
}

/// Every policy whose rule matches the request, enforcing or annotating,
/// leaves its decision in the listing under its own identifier: denials
/// that cannot enforce are still observable.
pub proof fn lemma_matching_policy_decision_recorded(
    policies: Seq<PolicyStateModel>,
    k0: u64,
    k1: u64,
    req: RequestModel,
    now_ms: u64,
    dec: Seq<(Seq<char>, CheckDecision)>,
    allowed: bool,
    retry: Option<u32>,
    i: int,
)
    requires
        0 <= i < policies.len(),
        policy_step(policies[i], k0, k1, req, now_ms).1 is Some,
    ensures
        has_pair_key(
            check_fold(policies, k0, k1, req, now_ms, dec, allowed, retry).1,
            policies[i].compiled.definition.id,
        ),
    decreases policies.len(),
{
    let stepped = policy_step(policies[0], k0, k1, req, now_ms);
    if i == 0 {
        match stepped.1 {
            None => {
                assert(false);
            },
            Some(o) => {
                lemma_upsert_adds_key(dec, policies[0].compiled.definition.id, o.0);
                lemma_fold_keeps_decision(
                    policies.drop_first(),
                    k0,
                    k1,
                    req,
                    now_ms,
                    upsert(dec, policies[0].compiled.definition.id, o.0),
                    if o.1 && !o.0.allowed {
                        false
                    } else {
                        allowed
                    },
                    if o.1 && !o.0.allowed {
                        combine_retry(retry, o.0.retry_after_ms)
                    } else {
                        retry
                    },
                    policies[0].compiled.definition.id,
                );
            },
        }
    } else {
        assert(policies.drop_first()[i - 1] == policies[i]);
        match stepped.1 {
            None => {
                lemma_matching_policy_decision_recorded(
                    policies.drop_first(),
                    k0,
                    k1,
                    req,
                    now_ms,
                    dec,
                    allowed,
                    retry,
                    i - 1,
                );
            },
            Some(o) => {
                lemma_matching_policy_decision_recorded(
                    policies.drop_first(),
                    k0,
                    k1,
                    req,
                    now_ms,
                    upsert(dec, policies[0].compiled.definition.id, o.0),
                    if o.1 && !o.0.allowed {
                        false
                    } else {
                        allowed
                    },
                    if o.1 && !o.0.allowed {
                        combine_retry(retry, o.0.retry_after_ms)
                    } else {
                        retry
                    },
                    i - 1,
                );
            },
        }
    }
}

/// The aggregate outcome never reads the decision listing: folding from
/// two different listings yields the same allowed bit and retry-after.
proof fn lemma_fold_outcome_ignores_decisions(
    policies: Seq<PolicyStateModel>,
    k0: u64,
    k1: u64,
    req: RequestModel,
    now_ms: u64,
    dec_a: Seq<(Seq<char>, CheckDecision)>,
    dec_b: Seq<(Seq<char>, CheckDecision)>,
    allowed: bool,
    retry: Option<u32>,
)
    ensures
        check_fold(policies, k0, k1, req, now_ms, dec_a, allowed, retry).2 == check_fold(
            policies,
            k0,
            k1,
            req,
            now_ms,
            dec_b,
            allowed,
            retry,
        ).2,
        check_fold(policies, k0, k1, req, now_ms, dec_a, allowed, retry).3 == check_fold(
            policies,
            k0,
            k1,
            req,
            now_ms,
            dec_b,
            allowed,
            retry,
        ).3,
    decreases policies.len(),
{
    if policies.len() > 0 {
        let stepped = policy_step(policies[0], k0, k1, req, now_ms);
        match stepped.1 {
            None => {
                lemma_fold_outcome_ignores_decisions(
                    policies.drop_first(),
                    k0,
                    k1,
                    req,
                    now_ms,
                    dec_a,
                    dec_b,
                    allowed,
                    retry,
                );
            },
            Some(o) => {
                let allowed1 = if o.1 && !o.0.allowed {
                    false
                } else {
                    allowed
                };
                let retry1 = if o.1 && !o.0.allowed {
                    combine_retry(retry, o.0.retry_after_ms)
                } else {
                    retry
                };
                lemma_fold_outcome_ignores_decisions(
                    policies.drop_first(),
                    k0,
                    k1,
                    req,
                    now_ms,
                    upsert(dec_a, policies[0].compiled.definition.id, o.0),
                    upsert(dec_b, policies[0].compiled.definition.id, o.0),
                    allowed1,
                    retry1,
                );
            },
        }
    }
}

/// An annotating policy never affects the aggregate: dropping it from
/// the policy list leaves the fold's allowed bit and retry-after exactly
/// as they were, whatever its own bucket decided.
pub proof fn lemma_annotate_never_denies(
    policies: Seq<PolicyStateModel>,
    k0: u64,
    k1: u64,
    req: RequestModel,
    now_ms: u64,
    dec: Seq<(Seq<char>, CheckDecision)>,
    allowed: bool,
    retry: Option<u32>,
    i: int,
)
    requires
        0 <= i < policies.len(),
        !enforces(policies[i].compiled.definition.action),
    ensures
        check_fold(policies, k0, k1, req, now_ms, dec, allowed, retry).2 == check_fold(
            policies.remove(i),
            k0,
            k1,
            req,
            now_ms,
            dec,
            allowed,
            retry,
        ).2,
        check_fold(policies, k0, k1, req, now_ms, dec, allowed, retry).3 == check_fold(
            policies.remove(i),
            k0,
            k1,
            req,
            now_ms,
            dec,
            allowed,
            retry,
        ).3,
    decreases policies.len(),
{
    let stepped = policy_step(policies[0], k0, k1, req, now_ms);
    if i == 0 {
        assert(policies.remove(0) =~= policies.drop_first());
        match stepped.1 {
            None => {
            },
            Some(o) => {
                assert(o.1 == enforces(policies[0].compiled.definition.action));
                lemma_fold_outcome_ignores_decisions(
                    policies.drop_first(),
                    k0,
                    k1,
                    req,
                    now_ms,
                    upsert(dec, policies[0].compiled.definition.id, o.0),
                    dec,
                    allowed,
                    retry,
                );
            },
        }
    } else {
        assert(policies.remove(i)[0] == policies[0]);
        assert(policies.remove(i).drop_first() =~= policies.drop_first().remove(i - 1));
        assert(policies.drop_first()[i - 1] == policies[i]);
        match stepped.1 {
            None => {
                lemma_annotate_never_denies(
                    policies.drop_first(),
                    k0,
                    k1,
                    req,
                    now_ms,
                    dec,
                    allowed,
                    retry,
                    i - 1,
                );
            },
            Some(o) => {
                lemma_annotate_never_denies(
                    policies.drop_first(),
                    k0,
                    k1,
                    req,
                    now_ms,
                    upsert(dec, policies[0].compiled.definition.id, o.0),
                    if o.1 && !o.0.allowed {
                        false
                    } else {
                        allowed
                    },
                    if o.1 && !o.0.allowed {
                        combine_retry(retry, o.0.retry_after_ms)
                    } else {
                        retry
                    },
                    i - 1,
                );
            },
        }
    }
}

/// One whole check at a given timestamp: fold the policies, record the
/// aggregate verdict in the counters once, and report the verdict with
/// the retry-after and the decision listing.
pub open spec fn check_spec(m: EngineModel, req: RequestModel, now_ms: u64) -> (
    EngineModel,
    ResultModel,
) {
    let f = check_fold(m.policies, m.k0, m.k1, req, now_ms, Seq::empty(), true, None);
    (
        EngineModel {
            k0: m.k0,
            k1: m.k1,
            policies: f.0,
            metrics: recorded(m.metrics, f.2),
            key_secret: m.key_secret,
            slices: m.slices,
            sketch_width: m.sketch_width,
            sketch_depth: m.sketch_depth,
            top_k: m.top_k,
            shard_a_hot_capacity: m.shard_a_hot_capacity,
            admission_hits_to_promote: m.admission_hits_to_promote,
        },
        ResultModel {
            allowed: f.2,
            retry_after_ms: if f.2 {
                None
            } else {
                f.3
            },
            decisions: f.1,
        },
    )
}

/// The engine a compiled configuration seeds: keying constants from the
/// secret, one empty bucket table per policy, zero counters.
pub open spec fn engine_of_config(c: ConfigModel) -> EngineModel {
    EngineModel {
        k0: k0_of_seed(seed_of(c.key_secret)),
        k1: k1_of_seed(seed_of(c.key_secret)),
        policies: c.policies.map_values(
            |cp: CompiledModel| PolicyStateModel { compiled: cp, buckets: Seq::empty() },
        ),
        metrics: Metrics { checks_total: 0, allowed_total: 0, denied_total: 0 },
        key_secret: c.key_secret,
        slices: c.slices,
        sketch_width: c.sketch_width,
        sketch_depth: c.sketch_depth,
        top_k: c.top_k,
        shard_a_hot_capacity: c.shard_a_hot_capacity,
        admission_hits_to_promote: c.admission_hits_to_promote,
    }
}

fn find_bucket(tbl: &Vec<(u64, TokenBucket)>, key: u64) -> (r: Option<usize>)
    ensures
        match r {
            Some(i) => tbl_find(tbl@, key, 0) == Some(i as int) && i < tbl@.len()
                && tbl@[i as int].0 == key,
            None => tbl_find(tbl@, key, 0) is None && forall|j: int|
                0 <= j < tbl@.len() ==> (#[trigger] tbl@[j]).0 != key,
        },
{
    let mut i: usize = 0;
    while i < tbl.len()
        invariant
            0 <= i <= tbl@.len(),
            tbl_find(tbl@, key, 0) == tbl_find(tbl@, key, i as int),
            forall|j: int| 0 <= j < i ==> (#[trigger] tbl@[j]).0 != key,
        decreases tbl@.len() - i,
    {
        if tbl[i].0 == key {
            return Some(i);
        }
        i += 1;
    }
    None
}

fn upsert_decision(pairs: &mut Vec<(String, CheckDecision)>, key: &String, value: CheckDecision)
    ensures
        decision_pairs_view(final(pairs)@) == upsert(
            decision_pairs_view(old(pairs)@),
            key@,
            value,
        ),
{
    let ghost pv = decision_pairs_view(old(pairs)@);
    let mut i: usize = 0;
    while i < pairs.len()
        invariant
            0 <= i <= pairs@.len(),
            pairs@ == old(pairs)@,
            pv == decision_pairs_view(pairs@),
            forall|k: int| 0 <= k < i ==> pv[k].0 != key@,
        decreases pairs@.len() - i,
    {
        proof {
            assert(pv[i as int] == (pairs@[i as int].0@, pairs@[i as int].1));
        }
        if crate::text::str_eq(pairs[i].0.as_str(), key.as_str()) {
            pairs.remove(i);
            pairs.insert(i, (key.clone(), value));
            proof {
                lemma_upsert_found(pv, key@, value, i as int);
                assert(decision_pairs_view(pairs@) =~= pv.update(i as int, (key@, value)));
            }
            return ;
        }
        i += 1;
    }
    pairs.push((key.clone(), value));
    proof {
        lemma_upsert_absent(pv, key@, value);
        assert(decision_pairs_view(pairs@) =~= pv.push((key@, value)));
    }
}

/// One policy's part of a check, on the owned policy state.
fn policy_check(ps: PolicyState, kb: &KeyBuilder, request: &CheckRequest, now_ms: u64) -> (r: (
    PolicyState,
    Option<(CheckDecision, bool)>,
))
    requires
        policy_state_wf(ps@),
    ensures
        r.0@ == policy_step(ps@, kb.k0, kb.k1, request@, now_ms).0,
        r.1 == policy_step(ps@, kb.k0, kb.k1, request@, now_ms).1,
        policy_state_wf(r.0@),
{
    let mut ps = ps;
    match ps.compiled.matcher.matches(request) {
        None => (ps, None),
        Some(captured) => {
            let key = kb.build_key(ps.compiled.definition.id.as_str(), &captured);
            let limit = ps.compiled.definition.limit_per_second;
            let burst = ps.compiled.definition.burst;
            let enforce = match ps.compiled.definition.action {
                None => true,
                Some(PolicyAction::Reject) => true,
                Some(PolicyAction::Annotate) => false,
            };
            let ghost tbl0 = ps.buckets@;
            match find_bucket(&ps.buckets, key) {
                Some(i) => {
                    let (bkey, mut bucket) = ps.buckets.remove(i);
                    let ghost b0 = bucket;
                    let (allowed, retry) = bucket.consume(limit, burst, now_ms);
                    ps.buckets.insert(i, (bkey, bucket));
                    proof {
                        assert(ps.buckets@ =~= tbl0.update(
                            i as int,
                            (key, bucket_after(b0, limit, burst, now_ms)),
                        ));
                    }
                    let decision = CheckDecision { allowed, retry_after_ms: retry };
                    (ps, Some((decision, enforce)))
                },
                None => {
                    let mut bucket = TokenBucket::new(burst, now_ms);
                    let ghost b0 = bucket;
                    let (allowed, retry) = bucket.consume(limit, burst, now_ms);
                    ps.buckets.push((key, bucket));
                    let decision = CheckDecision { allowed, retry_after_ms: retry };
                    (ps, Some((decision, enforce)))
                },
            }
        },
    }
}

pub open spec fn request_views(v: Seq<CheckRequest>) -> Seq<RequestModel> {
    v.map_values(|r: CheckRequest| r@)
}

pub open spec fn result_views(v: Seq<CheckResult>) -> Seq<ResultModel> {
    v.map_values(|r: CheckResult| r@)
}

/// A batch of checks: each request is checked in input order against the
/// state the previous one left, at its own timestamp.
pub open spec fn batch_spec(m: EngineModel, reqs: Seq<RequestModel>, times: Seq<u64>) -> (
    EngineModel,
    Seq<ResultModel>,
)
    decreases reqs.len(),
{
    if reqs.len() == 0 {
        (m, Seq::empty())
    } else {
        let one = check_spec(m, reqs[0], times[0]);
        let rest = batch_spec(one.0, reqs.drop_first(), times.drop_first());
        (rest.0, seq![one.1] + rest.1)
    }
}

proof fn lemma_batch_snoc(m: EngineModel, reqs: Seq<RequestModel>, times: Seq<u64>, r: RequestModel, t: u64)
    requires
        reqs.len() == times.len(),
    ensures
        batch_spec(m, reqs.push(r), times.push(t)) == ({
            let b = batch_spec(m, reqs, times);
            let one = check_spec(b.0, r, t);
            (one.0, b.1 + seq![one.1])
        }),
    decreases reqs.len(),
{
    let b = batch_spec(m, reqs, times);
    let one = check_spec(b.0, r, t);
    if reqs.len() == 0 {
        assert(reqs.push(r)[0] == r);
        assert(times.push(t)[0] == t);
        assert(reqs.push(r).drop_first() =~= Seq::<RequestModel>::empty());
        assert(times.push(t).drop_first() =~= Seq::<u64>::empty());
        assert(b == (m, Seq::<ResultModel>::empty()));
        assert(batch_spec(one.0, Seq::<RequestModel>::empty(), Seq::<u64>::empty()) == (
            one.0,
            Seq::<ResultModel>::empty(),
        ));
        assert(batch_spec(m, reqs.push(r), times.push(t)).1 =~= b.1 + seq![one.1]);
        assert(batch_spec(m, reqs.push(r), times.push(t)).0 == one.0);
    } else {
        assert(reqs.push(r).drop_first() =~= reqs.drop_first().push(r));
        assert(times.push(t).drop_first() =~= times.drop_first().push(t));
        assert(reqs.push(r)[0] == reqs[0] && times.push(t)[0] == times[0]);
        lemma_batch_snoc(
            check_spec(m, reqs[0], times[0]).0,
            reqs.drop_first(),
            times.drop_first(),
            r,
            t,
        );
        assert(batch_spec(m, reqs.push(r), times.push(t)).1 =~= b.1 + seq![one.1]);
    }
}

/// How many checks a batch records: one per request.
proof fn lemma_batch_metrics(m: EngineModel, reqs: Seq<RequestModel>, times: Seq<u64>)
    requires
        m.metrics.checks_total + reqs.len() <= u64::MAX,
    ensures
        batch_spec(m, reqs, times).0.metrics.checks_total == m.metrics.checks_total + reqs.len(),
    decreases reqs.len(),
{
    if reqs.len() > 0 {
        lemma_batch_metrics(check_spec(m, reqs[0], times[0]).0, reqs.drop_first(), times.drop_first());
    }
}

impl Fluxgate {
    /// Well-formed engine state.
    pub open spec fn wf(&self) -> bool {
        engine_wf(self@)
    }

    /// Build an engine from a compiled configuration: derive the keying
    /// constants from the secret and give every policy an empty bucket
    /// table and zero counters.
    fn from_config(config: FluxgateConfig) -> (r: Fluxgate)
        ensures
            r@ == engine_of_config(config@),
            r.wf(),
    {
        let ghost cm = config@;
        let FluxgateConfig {
            policies,
            key_secret,
            slices,
            sketch_width,
            sketch_depth,
            top_k,
            shard_a_hot_capacity,
            admission_hits_to_promote,
        } = config;
        let key_builder = KeyBuilder::new(match &key_secret {
            Some(s) => Some(s.as_str()),
            None => None,
        });
        let mut rem = policies;
        let mut states: Vec<PolicyState> = Vec::new();
        let ghost pol0 = cm.policies;
        proof {
            assert(crate::config::compiled_view(rem@) =~= pol0.skip(0));
        }
        while rem.len() > 0
            invariant
                pol0.len() == states@.len() + rem@.len(),
                crate::config::compiled_view(rem@) =~= pol0.skip(states@.len() as int),
                forall|k: int|
                    0 <= k < states@.len() ==> (#[trigger] states@[k])@ == (PolicyStateModel {
                        compiled: pol0[k],
                        buckets: Seq::empty(),
                    }),
            decreases rem@.len(),
        {
            let ghost prev = rem@;
            let ghost k = states@.len() as int;
            let cp = rem.remove(0);
            proof {
                assert(crate::config::compiled_view(prev)[0] == prev[0]@);
                assert(cp@ == pol0[k]);
                assert(crate::config::compiled_view(rem@) =~= crate::config::compiled_view(
                    prev,
                ).drop_first());
                assert(crate::config::compiled_view(rem@) =~= pol0.skip(k + 1));
            }
            states.push(PolicyState { compiled: cp, buckets: Vec::new() });
        }
        let r = Fluxgate {
            key_builder,
            policies: states,
            metrics: Metrics::default(),
            key_secret,
            slices,
            sketch_width,
            sketch_depth,
            top_k,
            shard_a_hot_capacity,
            admission_hits_to_promote,
        };
        proof {
            let target = engine_of_config(cm);
            assert(forall|k: int|
                0 <= k < r@.policies.len() ==> #[trigger] r@.policies[k] == (
                #[trigger] states@[k])@);
            assert(r@.policies =~= target.policies);
            assert(r@ =~= target);
        }
        r
    }

    /// Build an engine from an init payload. Fails exactly when the
    /// payload is rejected, with an `InvalidConfig` error.
    pub fn new(init: FluxgateInit) -> (r: Result<Fluxgate, FluxgateError>)
        ensures
            r is Ok <==> init_ok(init@),
            r is Ok ==> r->Ok_0@ == engine_of_config(config_of_init(init@)) && r->Ok_0.wf(),
            r is Err ==> (r->Err_0 matches FluxgateError::InvalidConfig(m) && m@
                == config_error_text(init@)),
    {
        match init.into_config() {
            Ok(config) => Ok(Self::from_config(config)),
            Err(e) => Err(e),
        }
    }

    /// One check at a caller-supplied timestamp: evaluate every policy
    /// in configured order against the request, update the matching
    /// buckets, record the aggregate verdict once, and return it with
    /// the per-policy decisions.
    #[verifier::loop_isolation(false)]
    pub fn check_at(&mut self, request: CheckRequest, now_ms: u64) -> (r: CheckResult)
        requires
            old(self).wf(),
            old(self)@.metrics.checks_total < u64::MAX,
        ensures
            final(self).wf(),
            final(self)@ == check_spec(old(self)@, request@, now_ms).0,
            r@ == check_spec(old(self)@, request@, now_ms).1,
    {
        let ghost m0 = self@;
        let ghost reqv = request@;
        let mut rem: Vec<PolicyState> = Vec::new();
        core::mem::swap(&mut rem, &mut self.policies);
        let mut done: Vec<PolicyState> = Vec::new();
        let mut decisions: Vec<(String, CheckDecision)> = Vec::new();
        let mut allowed = true;
        let mut retry_after: Option<u32> = None;
        let ghost f = check_fold(m0.policies, m0.k0, m0.k1, reqv, now_ms, Seq::empty(), true, None);
        proof {
            assert(psm_views(rem@) =~= m0.policies);
            assert(psm_views(done@) =~= Seq::<PolicyStateModel>::empty());
            assert(decision_pairs_view(decisions@) =~= Seq::<(Seq<char>, CheckDecision)>::empty());
            assert(psm_views(done@) + f.0 =~= f.0);
        }
        while rem.len() > 0
            invariant
                forall|p: int|
                    0 <= p < rem@.len() ==> policy_state_wf(#[trigger] psm_views(rem@)[p]),
                forall|p: int|
                    0 <= p < done@.len() ==> policy_state_wf(#[trigger] psm_views(done@)[p]),
                ({
                    let g = check_fold(
                        psm_views(rem@),
                        m0.k0,
                        m0.k1,
                        reqv,
                        now_ms,
                        decision_pairs_view(decisions@),
                        allowed,
                        retry_after,
                    );
                    f.0 == psm_views(done@) + g.0 && f.1 == g.1 && f.2 == g.2 && f.3 == g.3
                }),
            decreases rem@.len(),
        {
            let ghost prev = rem@;
            let ps = rem.remove(0);
            proof {
                assert(psm_views(prev)[0] == prev[0]@);
                assert(psm_views(rem@) =~= psm_views(prev).drop_first());
            }
            let (ps2, outcome) = policy_check(ps, &self.key_builder, &request, now_ms);
            let ghost stepped = policy_step(prev[0]@, m0.k0, m0.k1, reqv, now_ms);
            match &outcome {
                Some(o) => {
                    let decision = o.0;
                    let enforce = o.1;
                    if enforce && !decision.allowed {
                        allowed = false;
                        retry_after = match (retry_after, decision.retry_after_ms) {
                            (Some(existing), Some(new_retry)) => Some(
                                if existing >= new_retry {
                                    existing
                                } else {
                                    new_retry
                                },
                            ),
                            (None, Some(new_retry)) => Some(new_retry),
                            (existing, None) => existing,
                        };
                    }
                    upsert_decision(&mut decisions, &ps2.compiled.definition.id, decision);
                },
                None => {},
            }
            proof {
                assert(ps2@ == stepped.0);
            }
            let ghost doneprev = done@;
            done.push(ps2);
            proof {
                assert(psm_views(done@) =~= psm_views(doneprev).push(stepped.0));
                assert(forall|p: int|
                    0 <= p < doneprev.len() ==> psm_views(done@)[p] == #[trigger] psm_views(
                        doneprev,
                    )[p]);
                assert(psm_views(done@)[doneprev.len() as int] == stepped.0);
                assert(psm_views(doneprev) + (seq![stepped.0] + check_fold(
                    psm_views(rem@),
                    m0.k0,
                    m0.k1,
                    reqv,
                    now_ms,
                    decision_pairs_view(decisions@),
                    allowed,
                    retry_after,
                ).0) =~= psm_views(done@) + check_fold(
                    psm_views(rem@),
                    m0.k0,
                    m0.k1,
                    reqv,
                    now_ms,
                    decision_pairs_view(decisions@),
                    allowed,
                    retry_after,
                ).0);
            }
        }
        self.policies = done;
        self.metrics.record(allowed);
        proof {
            assert(psm_views(rem@) =~= Seq::<PolicyStateModel>::empty());
            assert(self@.policies =~= f.0);
            assert(self@ =~= check_spec(m0, reqv, now_ms).0);
        }
        if allowed {
            let r = CheckResult { allowed: true, retry_after_ms: None, decisions };
            proof {
                assert(r@ =~= check_spec(m0, reqv, now_ms).1);
            }
            r
        } else {
            let r = CheckResult::denied(retry_after, decisions);
            proof {
                assert(r@ =~= check_spec(m0, reqv, now_ms).1);
            }
            r
        }
    }

    /// One check at the current wall-clock time: the result and the new
    /// state are those of `check_at` at the timestamp that was read.
    pub fn check(&mut self, request: CheckRequest) -> (r: CheckResult)
        requires
            old(self).wf(),
            old(self)@.metrics.checks_total < u64::MAX,
        ensures
            final(self).wf(),
            exists|now_ms: u64|
                final(self)@ == (#[trigger] check_spec(old(self)@, request@, now_ms)).0 && r@
                    == check_spec(old(self)@, request@, now_ms).1,
    {
        let now_ms = crate::time::now_ms();
        self.check_at(request, now_ms)
    }

    /// Check a batch of requests in input order, each against the state
    /// the previous one left, each at its own wall-clock timestamp.
    pub fn check_batch(&mut self, requests: Vec<CheckRequest>) -> (r: Vec<CheckResult>)
        requires
            old(self).wf(),
            old(self)@.metrics.checks_total + requests@.len() <= u64::MAX,
        ensures
            final(self).wf(),
            r@.len() == requests@.len(),
            exists|times: Seq<u64>|
                final(self)@ == (#[trigger] batch_spec(
                    old(self)@,
                    request_views(requests@),
                    times,
                )).0 && result_views(r@) == batch_spec(
                    old(self)@,
                    request_views(requests@),
                    times,
                ).1 && times.len() == requests@.len(),
    {
        let ghost m0 = self@;
        let ghost reqv = request_views(requests@);
        let mut rem = requests;
        let mut results: Vec<CheckResult> = Vec::new();
        let ghost mut times: Seq<u64> = Seq::empty();
        let ghost mut donev: Seq<RequestModel> = Seq::empty();
        proof {
            assert(batch_spec(m0, donev, times).1 =~= result_views(results@));
            assert(donev + request_views(rem@) =~= reqv);
        }
        while rem.len() > 0
            invariant
                self.wf(),
                donev.len() == times.len(),
                donev.len() + rem@.len() == reqv.len(),
                donev + request_views(rem@) =~= reqv,
                self@ == batch_spec(m0, donev, times).0,
                result_views(results@) == batch_spec(m0, donev, times).1,
                results@.len() == donev.len(),
                m0.metrics.checks_total + reqv.len() <= u64::MAX,
                self@.metrics.checks_total == m0.metrics.checks_total + donev.len(),
            decreases rem@.len(),
        {
            let ghost prev = rem@;
            let ghost mprev = self@;
            let req = rem.remove(0);
            proof {
                assert(request_views(prev)[0] == prev[0]@);
                assert(request_views(rem@) =~= request_views(prev).drop_first());
                assert(req@ == request_views(prev)[0]);
            }
            let ghost rv = req@;
            let res = self.check(req);
            proof {
                let n = choose|now_ms: u64|
                    self@ == (#[trigger] check_spec(mprev, rv, now_ms)).0 && res@ == check_spec(
                        mprev,
                        rv,
                        now_ms,
                    ).1;
                lemma_batch_snoc(m0, donev, times, rv, n);
                lemma_batch_metrics(m0, donev.push(rv), times.push(n));
                donev = donev.push(rv);
                times = times.push(n);
            }
            results.push(res);
            proof {
                assert(result_views(results@) =~= result_views(results@.drop_last()).push(
                    results@.last()@,
                ));
                assert(result_views(results@) =~= batch_spec(m0, donev, times).1);
                assert(donev + request_views(rem@) =~= reqv);
            }
        }
        proof {
            assert(donev =~= reqv);
        }
        results
    }

    /// Rotation hook for future time-sliced eviction of stale buckets.
    /// Currently a no-op: the state is left exactly as it was.
    pub fn rotate(&mut self)
        ensures
            *final(self) == *old(self),
    {
    }

    /// Recompile a brand-new engine state from the payload and replace
    /// the current one in full; on failure the existing state stays
    /// untouched and authoritative.
    pub fn reload(&mut self, init: FluxgateInit) -> (r: Result<(), FluxgateError>)
        ensures
            r is Ok <==> init_ok(init@),
            r is Ok ==> final(self)@ == engine_of_config(config_of_init(init@))
                && final(self).wf(),
            r is Err ==> *final(self) == *old(self) && (r->Err_0 matches
            FluxgateError::InvalidConfig(m) && m@ == config_error_text(init@)),
    {
        match Fluxgate::new(init) {
            Ok(rebuilt) => {
                *self = rebuilt;
                Ok(())
            },
            Err(e) => Err(e),
        }
    }

    /// The counters as an ordered name-to-count listing.
    pub fn metrics(&self) -> (r: Vec<(String, u64)>)
        ensures
            r@.len() == 3,
            r@[0].0@ == "checks_total"@ && r@[0].1 == self@.metrics.checks_total,
            r@[1].0@ == "allowed_total"@ && r@[1].1 == self@.metrics.allowed_total,
            r@[2].0@ == "denied_total"@ && r@[2].1 == self@.metrics.denied_total,
    {
        self.metrics.as_map()
    }

    /// The engine's version string.
    pub fn version(&self) -> (r: String)
        ensures
            r@ == "0.1.0"@,
    {
        "0.1.0".to_owned()
    }
}

} // verus!
